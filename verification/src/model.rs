//! Record shapes and lifecycle states of the task DAG.
use vstd::prelude::*;
use crate::error::AtlasError;
use crate::text::{str_equal, push_str};

verus! {

/// Lifecycle states of a task node.
#[derive(Debug, Clone, Copy, PartialEq, Eq, Structural)]
pub enum TaskState {
    Pending,
    Blocked,
    Ready,
    InProgress,
    Completed,
    Failed,
}

/// Canonical uppercase name of a task state.
pub open spec fn task_state_name(s: TaskState) -> Seq<char> {
    match s {
        TaskState::Pending => "PENDING"@,
        TaskState::Blocked => "BLOCKED"@,
        TaskState::Ready => "READY"@,
        TaskState::InProgress => "IN_PROGRESS"@,
        TaskState::Completed => "COMPLETED"@,
        TaskState::Failed => "FAILED"@,
    }
}

/// The state whose canonical name is `s`, if any.
pub open spec fn task_state_named(s: Seq<char>) -> Option<TaskState> {
    if s == "PENDING"@ {
        Some(TaskState::Pending)
    } else if s == "BLOCKED"@ {
        Some(TaskState::Blocked)
    } else if s == "READY"@ {
        Some(TaskState::Ready)
    } else if s == "IN_PROGRESS"@ {
        Some(TaskState::InProgress)
    } else if s == "COMPLETED"@ {
        Some(TaskState::Completed)
    } else if s == "FAILED"@ {
        Some(TaskState::Failed)
    } else {
        None
    }
}

/// Terminal states need no further work.
pub open spec fn terminal(s: TaskState) -> bool {
    s == TaskState::Completed || s == TaskState::Failed
}

impl TaskState {
    /// Canonical uppercase name stored in the database.
    pub fn as_str(self) -> (r: &'static str)
        ensures
            r@ == task_state_name(self),
    {
        match self {
            TaskState::Pending => "PENDING",
            TaskState::Blocked => "BLOCKED",
            TaskState::Ready => "READY",
            TaskState::InProgress => "IN_PROGRESS",
            TaskState::Completed => "COMPLETED",
            TaskState::Failed => "FAILED",
        }
    }

    /// True once the task needs no further work.
    pub fn is_terminal(self) -> (r: bool)
        ensures
            r == terminal(self),
    {
        match self {
            TaskState::Completed | TaskState::Failed => true,
            _ => false,
        }
    }

    /// Parses a canonical state name; anything else is `InvalidState`.
    pub fn parse(s: &str) -> (r: Result<TaskState, AtlasError>)
        ensures
            match task_state_named(s@) {
                Some(t) => r == Ok::<TaskState, AtlasError>(t),
                None => r matches Err(AtlasError::InvalidState(m)) && m@ == s@,
            },
    {
        if str_equal(s, "PENDING") {
            Ok(TaskState::Pending)
        } else if str_equal(s, "BLOCKED") {
            Ok(TaskState::Blocked)
        } else if str_equal(s, "READY") {
            Ok(TaskState::Ready)
        } else if str_equal(s, "IN_PROGRESS") {
            Ok(TaskState::InProgress)
        } else if str_equal(s, "COMPLETED") {
            Ok(TaskState::Completed)
        } else if str_equal(s, "FAILED") {
            Ok(TaskState::Failed)
        } else {
            Err(AtlasError::InvalidState(s.to_owned()))
        }
    }
}

/// Round trip: every state parses back from its canonical name.
pub proof fn lemma_task_state_roundtrip(t: TaskState)
    ensures
        task_state_named(task_state_name(t)) == Some(t),
{
    reveal_strlit("PENDING");
    reveal_strlit("BLOCKED");
    reveal_strlit("READY");
    reveal_strlit("IN_PROGRESS");
    reveal_strlit("COMPLETED");
    reveal_strlit("FAILED");
    assert("BLOCKED"@[0] != "PENDING"@[0]);
    assert("BLOCKED"@.len() == 7 && "PENDING"@.len() == 7 && "READY"@.len() == 5);
    assert("IN_PROGRESS"@.len() == 11 && "COMPLETED"@.len() == 9 && "FAILED"@.len() == 6);
}

/// A durable unit of work identity.
#[derive(Debug, Clone)]
pub struct Session {
    pub id: String,
    pub goal: String,
    pub started_at: i64,
    pub status: String,
}

/// A single DAG node.
#[derive(Debug, Clone)]
pub struct Task {
    pub id: String,
    pub session_id: String,
    pub title: String,
    pub state: TaskState,
    pub agent: Option<String>,
    /// Consecutive failure count driving bounded retry.
    pub attempts: i64,
    pub created_at: i64,
    pub updated_at: i64,
}

/// A task node with its rendered children, used by `tree --json`.
#[derive(Debug)]
pub struct TaskNode {
    pub id: String,
    pub title: String,
    pub state: TaskState,
    pub children: Vec<TaskNode>,
}

/// One row of the append-only event log.
#[derive(Debug, Clone)]
pub struct Event {
    pub id: i64,
    pub kind: String,
    pub payload: String,
    pub idempotency_key: Option<String>,
    pub processed: bool,
}

/// Durable dispatcher checkpoint: last consumed event plus a full
/// task-state snapshot.
#[derive(Debug, Clone)]
pub struct Checkpoint {
    pub last_event_id: i64,
    pub snapshot: String,
    pub updated_at: i64,
}

/// Outcome of one pass over queued events.
#[derive(Debug, Clone, Default)]
pub struct TickSummary {
    pub processed: usize,
    pub unlocked: usize,
    pub retried: usize,
    pub escalated: usize,
    pub skipped: usize,
    pub last_event_id: i64,
}

/// One Definition-of-Done checklist row owned by a task. Items are
/// numbered per task starting at 1.
#[derive(Debug, Clone)]
pub struct DodItem {
    pub task_id: String,
    pub n: i64,
    pub text: String,
    pub checked: bool,
}

/// One free-form evidence string attached to a task.
#[derive(Debug, Clone)]
pub struct EvidenceItem {
    pub id: i64,
    pub task_id: String,
    pub text: String,
    pub created_at: i64,
}

/// Rule-check outcome for one task. `passed` depends only on the rule
/// layer; the assessor's verdict is advisory.
#[derive(Debug, Clone)]
pub struct VerifyReport {
    pub task_id: String,
    pub passed: bool,
    pub failures: Vec<String>,
    pub dod_total: i64,
    pub dod_checked: i64,
    pub evidence_count: i64,
    pub reviewer: String,
}

/// Lifecycle of a forge issue: OPEN until closed.
#[derive(Debug, Clone, Copy, PartialEq, Eq, Structural)]
pub enum IssueState {
    Open,
    Closed,
}

pub open spec fn issue_state_name(s: IssueState) -> Seq<char> {
    match s {
        IssueState::Open => "OPEN"@,
        IssueState::Closed => "CLOSED"@,
    }
}

impl IssueState {
    /// Canonical uppercase name stored in the database.
    pub fn as_str(self) -> (r: &'static str)
        ensures
            r@ == issue_state_name(self),
    {
        match self {
            IssueState::Open => "OPEN",
            IssueState::Closed => "CLOSED",
        }
    }

    /// Parses a canonical issue state name; anything else is `InvalidState`.
    pub fn parse(s: &str) -> (r: Result<IssueState, AtlasError>)
        ensures
            s@ == "OPEN"@ ==> r == Ok::<IssueState, AtlasError>(IssueState::Open),
            s@ == "CLOSED"@ ==> r == Ok::<IssueState, AtlasError>(IssueState::Closed),
            s@ != "OPEN"@ && s@ != "CLOSED"@ ==> (r matches Err(AtlasError::InvalidState(m)) && m@ == s@),
    {
        proof {
            reveal_strlit("OPEN");
            reveal_strlit("CLOSED");
            assert("OPEN"@.len() != "CLOSED"@.len());
        }
        if str_equal(s, "OPEN") {
            Ok(IssueState::Open)
        } else if str_equal(s, "CLOSED") {
            Ok(IssueState::Closed)
        } else {
            Err(AtlasError::InvalidState(s.to_owned()))
        }
    }
}

/// Lifecycle of a forge pull request.
#[derive(Debug, Clone, Copy, PartialEq, Eq, Structural)]
pub enum PrState {
    Open,
    Merged,
    Closed,
}

pub open spec fn pr_state_name(s: PrState) -> Seq<char> {
    match s {
        PrState::Open => "OPEN"@,
        PrState::Merged => "MERGED"@,
        PrState::Closed => "CLOSED"@,
    }
}

impl PrState {
    /// Canonical uppercase name stored in the database.
    pub fn as_str(self) -> (r: &'static str)
        ensures
            r@ == pr_state_name(self),
    {
        match self {
            PrState::Open => "OPEN",
            PrState::Merged => "MERGED",
            PrState::Closed => "CLOSED",
        }
    }

    /// Parses a canonical pull-request state name; anything else is `InvalidState`.
    pub fn parse(s: &str) -> (r: Result<PrState, AtlasError>)
        ensures
            s@ == "OPEN"@ ==> r == Ok::<PrState, AtlasError>(PrState::Open),
            s@ != "OPEN"@ && s@ == "MERGED"@ ==> r == Ok::<PrState, AtlasError>(PrState::Merged),
            s@ != "OPEN"@ && s@ != "MERGED"@ && s@ == "CLOSED"@ ==> r == Ok::<PrState, AtlasError>(PrState::Closed),
            s@ != "OPEN"@ && s@ != "MERGED"@ && s@ != "CLOSED"@ ==> (r matches Err(AtlasError::InvalidState(m)) && m@ == s@),
    {
        if str_equal(s, "OPEN") {
            Ok(PrState::Open)
        } else if str_equal(s, "MERGED") {
            Ok(PrState::Merged)
        } else if str_equal(s, "CLOSED") {
            Ok(PrState::Closed)
        } else {
            Err(AtlasError::InvalidState(s.to_owned()))
        }
    }
}

/// One forge issue row.
#[derive(Debug, Clone)]
pub struct ForgeIssue {
    pub id: String,
    pub title: String,
    pub body: String,
    pub state: IssueState,
    pub created_at: i64,
    pub updated_at: i64,
}

/// One forge pull request row: `branch` must name a real local branch.
#[derive(Debug, Clone)]
pub struct ForgePr {
    pub id: i64,
    pub title: String,
    pub base: String,
    pub branch: String,
    pub state: PrState,
    pub created_at: i64,
    pub updated_at: i64,
}

/// Fast-CI evidence attached to a pull request; `passed` gates deploy.
#[derive(Debug, Clone)]
pub struct CiRecord {
    pub id: i64,
    pub pr_id: i64,
    pub head_sha: String,
    pub profile: String,
    pub passed: bool,
    pub evidence: String,
    pub created_at: i64,
}

/// Deploy target for `atlas deploy`.
#[derive(Debug, Clone, Copy, PartialEq, Eq, Structural)]
pub enum DeployTarget {
    Vps,
    Cloudrun,
}

pub open spec fn deploy_target_name(t: DeployTarget) -> Seq<char> {
    match t {
        DeployTarget::Vps => "vps"@,
        DeployTarget::Cloudrun => "cloudrun"@,
    }
}

impl DeployTarget {
    /// Lower-case name of the target, as the CLI spells it.
    pub fn as_str(self) -> (r: &'static str)
        ensures
            r@ == deploy_target_name(self),
    {
        match self {
            DeployTarget::Vps => "vps",
            DeployTarget::Cloudrun => "cloudrun",
        }
    }

    /// Parses `vps` or `cloudrun`; anything else is a `Forge` error
    /// naming the accepted values.
    pub fn parse(s: &str) -> (r: Result<DeployTarget, AtlasError>)
        ensures
            s@ == "vps"@ ==> r == Ok::<DeployTarget, AtlasError>(DeployTarget::Vps),
            s@ == "cloudrun"@ ==> r == Ok::<DeployTarget, AtlasError>(DeployTarget::Cloudrun),
            s@ != "vps"@ && s@ != "cloudrun"@ ==> (r matches Err(AtlasError::Forge(m))
                && m@ == "unknown deploy target '"@ + s@ + "' (want vps|cloudrun)"@),
    {
        proof {
            reveal_strlit("vps");
            reveal_strlit("cloudrun");
            assert("vps"@.len() != "cloudrun"@.len());
        }
        if str_equal(s, "vps") {
            Ok(DeployTarget::Vps)
        } else if str_equal(s, "cloudrun") {
            Ok(DeployTarget::Cloudrun)
        } else {
            let mut m = String::new();
            push_str(&mut m, "unknown deploy target '");
            push_str(&mut m, s);
            push_str(&mut m, "' (want vps|cloudrun)");
            Err(AtlasError::Forge(m))
        }
    }
}

} // verus!
