use atlas::error::AtlasError;
use atlas::lifecycle::{announces_ready, block_decision, refreshed_state, start_decision};
use atlas::model::{DeployTarget, IssueState, PrState, TaskState};

#[test]
fn task_states_round_trip_through_their_names() {
    for s in [
        TaskState::Pending,
        TaskState::Blocked,
        TaskState::Ready,
        TaskState::InProgress,
        TaskState::Completed,
        TaskState::Failed,
    ] {
        assert_eq!(TaskState::parse(s.as_str()), Ok(s));
    }
    assert_eq!(TaskState::InProgress.as_str(), "IN_PROGRESS");
    assert_eq!(TaskState::parse("done"), Err(AtlasError::InvalidState("done".to_owned())));
    assert!(TaskState::Completed.is_terminal());
    assert!(TaskState::Failed.is_terminal());
    assert!(!TaskState::Ready.is_terminal());
}

#[test]
fn forge_states_and_targets_parse() {
    assert_eq!(IssueState::parse("OPEN"), Ok(IssueState::Open));
    assert_eq!(IssueState::Closed.as_str(), "CLOSED");
    assert!(IssueState::parse("open").is_err());
    assert_eq!(PrState::parse("MERGED"), Ok(PrState::Merged));
    assert_eq!(PrState::Closed.as_str(), "CLOSED");
    assert_eq!(DeployTarget::parse("vps"), Ok(DeployTarget::Vps));
    assert_eq!(DeployTarget::Cloudrun.as_str(), "cloudrun");
    assert_eq!(
        DeployTarget::parse("baremetal"),
        Err(AtlasError::Forge("unknown deploy target 'baremetal' (want vps|cloudrun)".to_owned()))
    );
}

#[test]
fn state_refresh_and_transitions() {
    assert_eq!(refreshed_state(TaskState::Ready, 1), TaskState::Blocked);
    assert_eq!(refreshed_state(TaskState::Blocked, 0), TaskState::Ready);
    assert_eq!(refreshed_state(TaskState::Completed, 3), TaskState::Completed);
    assert_eq!(start_decision("t1", TaskState::Ready, 0), Ok(TaskState::InProgress));
    assert_eq!(start_decision("t1", TaskState::Blocked, 0), Ok(TaskState::InProgress));
    assert_eq!(
        start_decision("t2", TaskState::Blocked, 1),
        Err(AtlasError::InvalidTransition("task t2 is BLOCKED, only READY work can start".to_owned()))
    );
    assert_eq!(block_decision("t3", TaskState::Ready), Ok(TaskState::Blocked));
    assert_eq!(
        block_decision("t3", TaskState::Completed),
        Err(AtlasError::InvalidTransition("task t3 is COMPLETED".to_owned()))
    );
    assert!(announces_ready(TaskState::Blocked, TaskState::Ready));
    assert!(!announces_ready(TaskState::Ready, TaskState::Ready));
}

#[test]
fn error_messages_read_like_the_cli_prints_them() {
    assert_eq!(AtlasError::NotFound("task t9".to_owned()).message(), "not found: task t9");
    assert_eq!(
        AtlasError::Cycle { child: "a".to_owned(), parent: "b".to_owned() }.message(),
        "cycle rejected: task a already reaches b"
    );
    assert_eq!(AtlasError::Db("locked".to_owned()).message(), "database error: locked");
    assert_eq!(AtlasError::Forge("x".to_owned()).message(), "forge: x");
}

#[test]
fn ready_blocked_transitions() {
    // A new task without parents is READY; one with an incomplete parent is BLOCKED.
    let t1 = refreshed_state(TaskState::Pending, 0);
    assert_eq!(t1, TaskState::Ready);
    let t2 = refreshed_state(TaskState::Pending, 1);
    assert_eq!(t2, TaskState::Blocked);
    // Cannot start blocked work with incomplete parents.
    assert!(start_decision("t2", t2, 1).is_err());
    // Completing the parent unlocks the child.
    let t2 = refreshed_state(t2, 0);
    assert_eq!(t2, TaskState::Ready);
    assert!(announces_ready(TaskState::Blocked, t2));
    assert_eq!(start_decision("t2", t2, 0), Ok(TaskState::InProgress));
    // A failed task stays failed whatever its parents do.
    assert_eq!(refreshed_state(TaskState::Failed, 0), TaskState::Failed);
}
