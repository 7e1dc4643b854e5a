use atlas::forge::{
    branch_name_usable, deploy_plan, fast_ci_outcome, issue_close_decision, tail, unknown_branch_error, FAST_PROFILE,
};
use atlas::error::AtlasError;
use atlas::model::{DeployTarget, IssueState};

#[test]
fn deploy_rejects_non_main_and_missing_ci() {
    let repo = ".";
    // Non-main branch rejected even with green CI.
    let err = deploy_plan("feature-x", "abc", true, DeployTarget::Vps, repo)
        .expect_err("non-main must fail");
    assert!(err.message().contains("must be 'main'"), "{}", err.message());
    // main without passing CI rejected.
    let err = deploy_plan("main", "abc", false, DeployTarget::Vps, repo)
        .expect_err("missing CI must fail");
    assert!(err.message().contains("no passing fast CI"), "{}", err.message());
    // main + green CI prints the plan (executes nothing).
    let plan = deploy_plan("main", "abc", true, DeployTarget::Cloudrun, repo).expect("plan");
    assert!(plan.contains("cloudrun"));
    assert!(plan.contains("not executed"));
    // Unknown target rejected.
    assert!(DeployTarget::parse("baremetal").is_err());
}

#[test]
fn deploy_plan_text_is_exact() {
    let plan = deploy_plan("main", "abc123", true, DeployTarget::Vps, "/srv/repo").expect("plan");
    assert_eq!(
        plan,
        "deploy plan [vps] (printed only, not executed)\n\
         repo: /srv/repo branch: main head: abc123\n\
         gates: branch==main OK; fast CI PASS for HEAD OK\n\
         steps:\n  1. cargo build --offline --release\n  2. rsync binary to VPS\n  3. restart service + health check\n  4. rollback: keep previous binary, restore on failed check\n\
         credentials: env-only (F3), none read"
    );
    assert_eq!(
        deploy_plan("dev", "abc", true, DeployTarget::Vps, "."),
        Err(AtlasError::Forge("deploy rejected: current branch is 'dev', must be 'main'".to_owned()))
    );
    assert_eq!(
        deploy_plan("main", "abc", false, DeployTarget::Cloudrun, "."),
        Err(AtlasError::Forge("deploy rejected: no passing fast CI for HEAD abc".to_owned()))
    );
}

#[test]
fn tail_keeps_last_lines_like_str_lines() {
    assert_eq!(tail("a\nb\nc\n", 2), "b\nc");
    assert_eq!(tail("a\r\nb\r\nc", 5), "a\nb\nc");
    assert_eq!(tail("", 3), "");
    assert_eq!(tail("only", 0), "");
    assert_eq!(tail("x\n\ny", 2), "\ny");
}

#[test]
fn fast_ci_evidence_carries_verdicts_and_tails() {
    let out = fast_ci_outcome(true, "t1\nt2", true, "f1");
    assert!(out.passed);
    assert_eq!(out.evidence, "fast CI: PASS\ncargo test --offline: ok\nt1\nt2\ncargo fmt --check: ok\nf1");
    let out = fast_ci_outcome(true, "", false, "diff");
    assert!(!out.passed);
    assert!(out.evidence.starts_with("fast CI: FAIL\n"));
    assert!(out.evidence.contains("cargo fmt --check: FAILED\ndiff"));
    let long: String = (0..40).map(|i| format!("line{i}\n")).collect();
    let out = fast_ci_outcome(false, &long, true, "");
    assert!(out.evidence.contains("line10\n"));
    assert!(!out.evidence.contains("line9\n"));
    assert_eq!(FAST_PROFILE, "fast");
}

#[test]
fn branch_checks_refuse_blank_and_unknown_names() {
    assert!(!branch_name_usable("   "));
    assert!(!branch_name_usable(""));
    assert!(branch_name_usable("main"));
    assert_eq!(
        unknown_branch_error("ghost-branch-xyz"),
        AtlasError::Forge("unknown branch 'ghost-branch-xyz': git rev-parse --verify failed".to_owned())
    );
}

#[test]
fn issue_close_only_from_open() {
    assert_eq!(issue_close_decision("i_1", IssueState::Open), Ok(IssueState::Closed));
    // Double close is rejected.
    assert_eq!(
        issue_close_decision("i_1", IssueState::Closed),
        Err(AtlasError::InvalidTransition("issue i_1 is already CLOSED".to_owned()))
    );
}
