//! Promotion gate for COMPLETED: the rule layer (Definition-of-Done
//! checklist plus attached evidence) decides; an assessor is advisory.
use vstd::prelude::*;
use crate::model::{DodItem, EvidenceItem, VerifyReport, TaskState};
use crate::error::AtlasError;
use crate::text::{push_str, i64_decimal, signed_decimal, views, join_with, join_strings};

verus! {

/// Advisory verdict of an assessor; recorded, never blocking.
#[derive(Debug, Clone, PartialEq, Eq)]
pub enum ReviewDecision {
    Approve,
    Defer(String),
    Reject(String),
}

/// Short tag of a verdict, as stored on a report.
pub open spec fn decision_tag(d: ReviewDecision) -> Seq<char> {
    match d {
        ReviewDecision::Approve => "approve"@,
        ReviewDecision::Defer(r) => "deferred:"@ + r@,
        ReviewDecision::Reject(r) => "rejected:"@ + r@,
    }
}

impl ReviewDecision {
    /// Short tag stored on the verify report.
    pub fn tag(&self) -> (r: String)
        ensures
            r@ == decision_tag(*self),
    {
        match self {
            ReviewDecision::Approve => "approve".to_owned(),
            ReviewDecision::Defer(m) => {
                let mut out = String::new();
                push_str(&mut out, "deferred:");
                push_str(&mut out, m.as_str());
                out
            },
            ReviewDecision::Reject(m) => {
                let mut out = String::new();
                push_str(&mut out, "rejected:");
                push_str(&mut out, m.as_str());
                out
            },
        }
    }
}

/// Pluggable assessor. Implementations may consult a model; the bundled
/// `StubReviewer` always defers so offline runs stay green.
pub trait Reviewer {
    /// The assessor's stable name.
    spec fn assessor_name(&self) -> Seq<char>;
    /// Stable assessor name recorded on every report.
    fn name(&self) -> (r: &'static str)
        ensures
            r@ == self.assessor_name();
    /// The verdicts the assessor may give for a task and its rule report
    /// (an assessor that consults a model need not always give the same one).
    spec fn may_decide(&self, task_id: Seq<char>, report: VerifyReport, d: ReviewDecision) -> bool;
    /// Advisory verdict for a task given its rule report.
    fn review(&self, task_id: &str, report: &VerifyReport) -> (d: ReviewDecision)
        ensures
            self.may_decide(task_id@, *report, d);
}

/// Non-blocking placeholder assessor: always defers.
pub struct StubReviewer;

impl Reviewer for StubReviewer {
    open spec fn assessor_name(&self) -> Seq<char> {
        "stub"@
    }

    fn name(&self) -> (r: &'static str) {
        proof {
            reveal_strlit("stub");
        }
        "stub"
    }

    open spec fn may_decide(&self, task_id: Seq<char>, report: VerifyReport, d: ReviewDecision) -> bool {
        d matches ReviewDecision::Defer(m) && m@ == "no LLM configured"@
    }

    fn review(&self, task_id: &str, report: &VerifyReport) -> (d: ReviewDecision) {
        ReviewDecision::Defer("no LLM configured".to_owned())
    }
}

/// Number of checked checklist items.
pub open spec fn checked_count(items: Seq<DodItem>) -> int
    decreases items.len(),
{
    if items.len() == 0 {
        0
    } else {
        checked_count(items.drop_last()) + if items.last().checked { 1int } else { 0int }
    }
}

/// Rule failures for a checklist of `total` items with `checked` checked
/// and `evidence` attached evidence strings.
pub open spec fn rule_failures(total: int, checked: int, evidence: int) -> Seq<Seq<char>> {
    let dod = if total == 0 {
        seq!["dod: no checklist items"@]
    } else if checked < total {
        seq!["dod: "@ + signed_decimal(checked) + "/"@ + signed_decimal(total) + " checked"@]
    } else {
        Seq::empty()
    };
    if evidence == 0 { dod.push("evidence: none attached"@) } else { dod }
}

proof fn lemma_checked_bounded(items: Seq<DodItem>)
    ensures
        0 <= checked_count(items) <= items.len(),
    decreases items.len(),
{
    if items.len() > 0 {
        lemma_checked_bounded(items.drop_last());
    }
}

/// `r` is the rule layer's report for a task (see `rule_report`).
pub open spec fn is_rule_report(r: VerifyReport, task_id: Seq<char>, items: Seq<DodItem>, evidence: Seq<EvidenceItem>) -> bool {
    &&& r.task_id@ == task_id
    &&& r.dod_total == items.len()
    &&& r.dod_checked == checked_count(items)
    &&& r.evidence_count == evidence.len()
    &&& views(r.failures@) == rule_failures(items.len() as int, checked_count(items), evidence.len() as int)
    &&& r.passed == (r.failures.len() == 0)
    &&& r.reviewer@ == Seq::<char>::empty()
}

/// Every item is checked exactly when the checked count is the number of items.
pub proof fn lemma_all_checked(items: Seq<DodItem>)
    ensures
        (checked_count(items) == items.len()) <==> (forall|i: int| 0 <= i < items.len() ==> #[trigger] items[i].checked),
    decreases items.len(),
{
    lemma_checked_bounded(items);
    if items.len() > 0 {
        let init = items.drop_last();
        lemma_all_checked(init);
        lemma_checked_bounded(init);
        assert forall|i: int| 0 <= i < init.len() implies init[i] == items[i] by {}
        if forall|i: int| 0 <= i < items.len() ==> #[trigger] items[i].checked {
            assert forall|i: int| 0 <= i < init.len() implies #[trigger] init[i].checked by {
                assert(items[i].checked);
            }
            assert(items[items.len() - 1].checked);
        }
        if checked_count(items) == items.len() {
            assert forall|i: int| 0 <= i < items.len() implies #[trigger] items[i].checked by {
                if i < init.len() {
                    assert(init[i].checked);
                }
            }
        }
    }
}

/// The rules pass exactly when the checklist has at least one item, every
/// item is checked, and some evidence is attached; an empty checklist
/// always fails, whatever evidence there is.
pub proof fn lemma_rules_pass_exactly(total: int, checked: int, evidence: int)
    requires
        0 <= checked <= total,
        0 <= evidence,
    ensures
        rule_failures(total, checked, evidence).len() == 0 <==> (total > 0 && checked == total && evidence > 0),
        total == 0 ==> rule_failures(total, checked, evidence).contains("dod: no checklist items"@),
        evidence == 0 ==> rule_failures(total, checked, evidence).contains("evidence: none attached"@),
{
    let f = rule_failures(total, checked, evidence);
    if total == 0 {
        assert(f[0] == "dod: no checklist items"@);
    }
    if evidence == 0 {
        assert(f[f.len() - 1] == "evidence: none attached"@);
    }
}

/// A rule report passes only when the checklist is non-empty, every item
/// is checked, and some evidence is attached; and then it does pass.
pub proof fn lemma_report_passes_exactly(r: VerifyReport, task_id: Seq<char>, items: Seq<DodItem>, evidence: Seq<EvidenceItem>)
    requires
        is_rule_report(r, task_id, items, evidence),
    ensures
        r.passed <==> (items.len() > 0 && (forall|i: int| 0 <= i < items.len() ==> #[trigger] items[i].checked) && evidence.len() > 0),
{
    lemma_checked_bounded(items);
    lemma_all_checked(items);
    lemma_rules_pass_exactly(items.len() as int, checked_count(items), evidence.len() as int);
    assert(r.failures.len() == views(r.failures@).len());
}

/// The rule layer's report for a task: it passes exactly when every
/// checklist item (at least one) is checked and some evidence is
/// attached. The assessor field is left empty.
pub fn rule_report(task_id: &str, items: &Vec<DodItem>, evidence: &Vec<EvidenceItem>) -> (r: VerifyReport)
    requires
        items.len() <= i64::MAX,
        evidence.len() <= i64::MAX,
    ensures
        r.task_id@ == task_id@,
        r.dod_total == items.len(),
        r.dod_checked == checked_count(items@),
        r.evidence_count == evidence.len(),
        views(r.failures@) == rule_failures(items.len() as int, checked_count(items@), evidence.len() as int),
        r.passed == (r.failures.len() == 0),
        r.reviewer@ == Seq::<char>::empty(),
        r.passed <==> (items.len() > 0 && (forall|i: int| 0 <= i < items.len() ==> #[trigger] items@[i].checked) && evidence.len() > 0),
{
    let total = items.len() as i64;
    let mut checked: i64 = 0;
    let mut k: usize = 0;
    while k < items.len()
        invariant
            k <= items.len(),
            items.len() <= i64::MAX,
            checked == checked_count(items@.take(k as int)),
        decreases items.len() - k,
    {
        proof {
            let t = items@.take(k + 1);
            assert(t.drop_last() =~= items@.take(k as int));
            assert(t.last() == items@[k as int]);
            lemma_checked_bounded(items@.take(k as int));
        }
        if items[k].checked {
            checked = checked + 1;
        }
        k = k + 1;
    }
    proof {
        assert(items@.take(items.len() as int) =~= items@);
    }
    let mut failures: Vec<String> = Vec::new();
    if total == 0 {
        failures.push("dod: no checklist items".to_owned());
    } else if checked < total {
        let mut m = String::new();
        push_str(&mut m, "dod: ");
        push_str(&mut m, i64_decimal(checked).as_str());
        push_str(&mut m, "/");
        push_str(&mut m, i64_decimal(total).as_str());
        push_str(&mut m, " checked");
        failures.push(m);
    }
    if evidence.len() == 0 {
        failures.push("evidence: none attached".to_owned());
    }
    proof {
        assert(views(failures@) =~= rule_failures(items.len() as int, checked_count(items@), evidence.len() as int));
    }
    let passed = failures.len() == 0;
    proof {
        lemma_checked_bounded(items@);
        lemma_all_checked(items@);
        lemma_rules_pass_exactly(items.len() as int, checked_count(items@), evidence.len() as int);
        assert(failures.len() == views(failures@).len());
    }
    VerifyReport {
        task_id: task_id.to_owned(),
        passed,
        failures,
        dod_total: total,
        dod_checked: checked,
        evidence_count: evidence.len() as i64,
        reviewer: String::new(),
    }
}

/// A report with the assessor's name and verdict recorded; the rule
/// outcome is left as it was.
pub fn record_review(draft: VerifyReport, name: &str, decision: &ReviewDecision) -> (r: VerifyReport)
    ensures
        r.task_id == draft.task_id,
        r.passed == draft.passed,
        r.failures == draft.failures,
        r.dod_total == draft.dod_total,
        r.dod_checked == draft.dod_checked,
        r.evidence_count == draft.evidence_count,
        r.reviewer@ == name@ + ":"@ + decision_tag(*decision),
{
    let mut reviewer = String::new();
    push_str(&mut reviewer, name);
    push_str(&mut reviewer, ":");
    push_str(&mut reviewer, decision.tag().as_str());
    VerifyReport { reviewer, ..draft }
}

/// Runs the rule layer plus one assessor over a task. Whether the task
/// passes depends only on the rules: the assessor's verdict is recorded
/// on the report and changes nothing else.
pub fn verify_with<R: Reviewer>(reviewer: &R, task_id: &str, items: &Vec<DodItem>, evidence: &Vec<EvidenceItem>) -> (r: VerifyReport)
    requires
        items.len() <= i64::MAX,
        evidence.len() <= i64::MAX,
    ensures
        r.task_id@ == task_id@,
        r.dod_total == items.len(),
        r.dod_checked == checked_count(items@),
        r.evidence_count == evidence.len(),
        views(r.failures@) == rule_failures(items.len() as int, checked_count(items@), evidence.len() as int),
        r.passed == (r.failures.len() == 0),
        exists|draft: VerifyReport, d: ReviewDecision| #![trigger reviewer.may_decide(task_id@, draft, d)]
            is_rule_report(draft, task_id@, items@, evidence@) && reviewer.may_decide(task_id@, draft, d)
            && r.reviewer@ == reviewer.assessor_name() + ":"@ + decision_tag(d),
{
    let draft = rule_report(task_id, items, evidence);
    let decision = reviewer.review(task_id, &draft);
    let name = reviewer.name();
    let ghost d0 = draft;
    let r = record_review(draft, name, &decision);
    assert(is_rule_report(d0, task_id@, items@, evidence@));
    assert(reviewer.may_decide(task_id@, d0, decision));
    assert(r.reviewer@ == reviewer.assessor_name() + ":"@ + decision_tag(decision));
    r
}

/// Why completing an unverified task is refused: the verifier's failures.
pub open spec fn unverified_message(id: Seq<char>, failures: Seq<Seq<char>>) -> Seq<char> {
    "task "@ + id + " is not verified; the verifier reports: "@ + join_with(failures, "; "@)
}

/// Decides a completion: a task becomes COMPLETED only when the rule
/// layer passes (every checklist item, at least one, checked and some
/// evidence attached); otherwise the verifier's failures refuse it.
pub fn complete_decision(id: &str, items: &Vec<DodItem>, evidence: &Vec<EvidenceItem>) -> (r: Result<TaskState, AtlasError>)
    requires
        items.len() <= i64::MAX,
        evidence.len() <= i64::MAX,
    ensures
        rule_failures(items.len() as int, checked_count(items@), evidence.len() as int).len() == 0
            ==> r == Ok::<TaskState, AtlasError>(TaskState::Completed),
        rule_failures(items.len() as int, checked_count(items@), evidence.len() as int).len() > 0
            ==> (r matches Err(AtlasError::InvalidTransition(m))
                && m@ == unverified_message(id@, rule_failures(items.len() as int, checked_count(items@), evidence.len() as int))),
{
    let report = rule_report(id, items, evidence);
    if report.passed {
        Ok(TaskState::Completed)
    } else {
        let mut m = String::new();
        push_str(&mut m, "task ");
        push_str(&mut m, id);
        push_str(&mut m, " is not verified; the verifier reports: ");
        push_str(&mut m, join_strings(&report.failures, "; ").as_str());
        Err(AtlasError::InvalidTransition(m))
    }
}

} // verus!
