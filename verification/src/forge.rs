//! Forge gates: fast-CI evidence, the main-only deploy plan, and branch
//! checks for pull requests. Nothing here runs a command or reads a
//! credential; callers hand in what git and cargo reported.
use vstd::prelude::*;
use crate::error::AtlasError;
use crate::model::{DeployTarget, deploy_target_name, IssueState};
use crate::text::{push_str, chars_of, join_with, join_strings, views, str_equal, trim, trim_text, lines_from, split_lines};

verus! {

/// Fast CI profile name recorded on every CI run.
pub const FAST_PROFILE: &'static str = "fast";

/// Outcome of one fast-CI run: the test run and the format check.
#[derive(Debug, Clone)]
pub struct CiOutcome {
    pub passed: bool,
    pub evidence: String,
}

/// The last `max_lines` lines of `s`, joined by `\n`.
pub open spec fn tail_of(s: Seq<char>, max_lines: int) -> Seq<char> {
    let ls = lines_from(s, 0);
    let skip = if ls.len() > max_lines { ls.len() - max_lines } else { 0 };
    join_with(ls.subrange(skip, ls.len() as int), "\n"@)
}

/// Keeps only the last `max_lines` lines of a command log, so evidence
/// stays small.
pub fn tail(text: &str, max_lines: usize) -> (r: String)
    ensures
        r@ == tail_of(text@, max_lines as int),
{
    let ls = split_lines(text);
    let skip = if ls.len() > max_lines { ls.len() - max_lines } else { 0 };
    let mut kept: Vec<String> = Vec::new();
    let mut k = skip;
    while k < ls.len()
        invariant
            skip <= k <= ls.len(),
            views(kept@) == views(ls@).subrange(skip as int, k as int),
        decreases ls.len() - k,
    {
        let ghost before = views(kept@);
        kept.push(ls[k].clone());
        proof {
            assert(views(kept@) =~= before.push(ls@[k as int]@));
            assert(views(ls@)[k as int] == ls@[k as int]@);
            assert(views(ls@).subrange(skip as int, k + 1) =~= views(ls@).subrange(skip as int, k as int).push(views(ls@)[k as int]));
        }
        k = k + 1;
    }
    join_strings(&kept, "\n")
}

/// The evidence text of a fast-CI run.
pub open spec fn ci_evidence(tests_ok: bool, tests_log: Seq<char>, fmt_ok: bool, fmt_log: Seq<char>) -> Seq<char> {
    "fast CI: "@ + (if tests_ok && fmt_ok { "PASS"@ } else { "FAIL"@ })
        + "\ncargo test --offline: "@ + (if tests_ok { "ok"@ } else { "FAILED"@ }) + "\n"@ + tail_of(tests_log, 30)
        + "\ncargo fmt --check: "@ + (if fmt_ok { "ok"@ } else { "FAILED"@ }) + "\n"@ + tail_of(fmt_log, 15)
}

/// Outcome of the fast CI profile from what its two commands reported:
/// it passes when both did, and the evidence carries both verdicts and
/// the tail of each log.
pub fn fast_ci_outcome(tests_ok: bool, tests_log: &str, fmt_ok: bool, fmt_log: &str) -> (r: CiOutcome)
    ensures
        r.passed == (tests_ok && fmt_ok),
        r.evidence@ == ci_evidence(tests_ok, tests_log@, fmt_ok, fmt_log@),
{
    let passed = tests_ok && fmt_ok;
    let mut ev = String::new();
    push_str(&mut ev, "fast CI: ");
    push_str(&mut ev, if passed { "PASS" } else { "FAIL" });
    push_str(&mut ev, "\ncargo test --offline: ");
    push_str(&mut ev, if tests_ok { "ok" } else { "FAILED" });
    push_str(&mut ev, "\n");
    push_str(&mut ev, tail(tests_log, 30).as_str());
    push_str(&mut ev, "\ncargo fmt --check: ");
    push_str(&mut ev, if fmt_ok { "ok" } else { "FAILED" });
    push_str(&mut ev, "\n");
    push_str(&mut ev, tail(fmt_log, 15).as_str());
    CiOutcome { passed, evidence: ev }
}

/// The deploy steps printed for a target.
pub open spec fn deploy_steps(target: DeployTarget) -> Seq<char> {
    match target {
        DeployTarget::Vps => "  1. cargo build --offline --release\n  2. rsync binary to VPS\n  3. restart service + health check\n  4. rollback: keep previous binary, restore on failed check"@,
        DeployTarget::Cloudrun => "  1. cargo build --offline --release\n  2. docker build + push image\n  3. gcloud run deploy (new revision, gradual traffic)\n  4. rollback: route traffic back to previous revision"@,
    }
}

/// The printed deploy plan for a target, repository and HEAD.
pub open spec fn deploy_plan_text(target: DeployTarget, repo: Seq<char>, head: Seq<char>) -> Seq<char> {
    "deploy plan ["@ + deploy_target_name(target) + "] (printed only, not executed)\nrepo: "@ + repo
        + " branch: main head: "@ + head + "\ngates: branch==main OK; fast CI PASS for HEAD OK\nsteps:\n"@
        + deploy_steps(target) + "\ncredentials: env-only (F3), none read"@
}

/// Deploy gate: the branch must be `main` and fast CI must have passed
/// for HEAD. Returns the plan to print; nothing is executed.
pub fn deploy_plan(branch: &str, head: &str, ci_passed_for_head: bool, target: DeployTarget, repo: &str) -> (r: Result<String, AtlasError>)
    ensures
        branch@ != "main"@ ==> (r matches Err(AtlasError::Forge(m))
            && m@ == "deploy rejected: current branch is '"@ + branch@ + "', must be 'main'"@),
        branch@ == "main"@ && !ci_passed_for_head ==> (r matches Err(AtlasError::Forge(m))
            && m@ == "deploy rejected: no passing fast CI for HEAD "@ + head@),
        branch@ == "main"@ && ci_passed_for_head ==> (r matches Ok(plan) && plan@ == deploy_plan_text(target, repo@, head@)),
{
    if !str_equal(branch, "main") {
        let mut m = String::new();
        push_str(&mut m, "deploy rejected: current branch is '");
        push_str(&mut m, branch);
        push_str(&mut m, "', must be 'main'");
        return Err(AtlasError::Forge(m));
    }
    if !ci_passed_for_head {
        let mut m = String::new();
        push_str(&mut m, "deploy rejected: no passing fast CI for HEAD ");
        push_str(&mut m, head);
        return Err(AtlasError::Forge(m));
    }
    let steps = match target {
        DeployTarget::Vps => "  1. cargo build --offline --release\n  2. rsync binary to VPS\n  3. restart service + health check\n  4. rollback: keep previous binary, restore on failed check",
        DeployTarget::Cloudrun => "  1. cargo build --offline --release\n  2. docker build + push image\n  3. gcloud run deploy (new revision, gradual traffic)\n  4. rollback: route traffic back to previous revision",
    };
    let mut p = String::new();
    push_str(&mut p, "deploy plan [");
    push_str(&mut p, target.as_str());
    push_str(&mut p, "] (printed only, not executed)\nrepo: ");
    push_str(&mut p, repo);
    push_str(&mut p, " branch: main head: ");
    push_str(&mut p, head);
    push_str(&mut p, "\ngates: branch==main OK; fast CI PASS for HEAD OK\nsteps:\n");
    push_str(&mut p, steps);
    push_str(&mut p, "\ncredentials: env-only (F3), none read");
    Ok(p)
}

/// A branch name worth asking git about: not empty once trimmed.
pub fn branch_name_usable(branch: &str) -> (r: bool)
    ensures
        r == (trim(branch@).len() > 0),
{
    let t = trim_text(branch);
    chars_of(t.as_str()).len() > 0
}

/// Refusal of a pull request whose branch git does not know.
pub fn unknown_branch_error(branch: &str) -> (r: AtlasError)
    ensures
        r matches AtlasError::Forge(m) && m@ == "unknown branch '"@ + branch@ + "': git rev-parse --verify failed"@,
{
    let mut m = String::new();
    push_str(&mut m, "unknown branch '");
    push_str(&mut m, branch);
    push_str(&mut m, "': git rev-parse --verify failed");
    AtlasError::Forge(m)
}

/// Decides closing an issue: an OPEN issue becomes CLOSED; closing a
/// CLOSED issue again is refused.
pub fn issue_close_decision(id: &str, state: IssueState) -> (r: Result<IssueState, AtlasError>)
    ensures
        state == IssueState::Open ==> r == Ok::<IssueState, AtlasError>(IssueState::Closed),
        state == IssueState::Closed ==> (r matches Err(AtlasError::InvalidTransition(m))
            && m@ == "issue "@ + id@ + " is already CLOSED"@),
{
    match state {
        IssueState::Open => Ok(IssueState::Closed),
        IssueState::Closed => {
            let mut m = String::new();
            push_str(&mut m, "issue ");
            push_str(&mut m, id);
            push_str(&mut m, " is already CLOSED");
            Err(AtlasError::InvalidTransition(m))
        },
    }
}

} // verus!
