use shush::session::{CommandCard, CommandState, SessionState};
use shush::session_manager::{SessionCommandError, SessionManager};
use uuid::Uuid;

#[test]
fn command_card_initial_state() {
    let card = CommandCard::new("echo hello".to_string()).expect("a random id");
    assert_eq!(card.command, "echo hello");
    assert_eq!(card.state, CommandState::Pending);
    assert!(card.exit_code.is_none());
    assert!(card.resolved_at.is_none());
    assert!(card.resolved_by.is_none());
    assert!(card.output.is_empty());
}

#[test]
fn new_manager_list_is_empty() {
    let mgr = SessionManager::new();
    assert!(mgr.list().is_empty());
}

#[test]
fn create_adds_session() {
    let mut mgr = SessionManager::new();
    let session = mgr.create("test-session".into(), "".into()).expect("a fresh id");
    assert_eq!(session.name, "test-session");
    let list = mgr.list();
    assert_eq!(list.len(), 1);
    assert_eq!(list[0].id, session.id);
}

#[test]
fn get_returns_created_session() {
    let mut mgr = SessionManager::new();
    let session = mgr.create("s1".into(), "".into()).expect("a fresh id");
    let fetched = mgr.get(session.id).expect("should exist");
    assert_eq!(fetched.name, session.name);
    assert_eq!(fetched.id, session.id);
}

#[test]
fn get_missing_returns_none() {
    let mgr = SessionManager::new();
    assert!(mgr.get(Uuid::new_v4().as_u128()).is_none());
}

#[test]
fn delete_removes_session() {
    let mut mgr = SessionManager::new();
    let session = mgr.create("to-delete".into(), "".into()).expect("a fresh id");
    let id = session.id;
    assert!(mgr.delete(id));
    assert!(mgr.get(id).is_none());
    assert!(mgr.list().is_empty());
}

#[test]
fn delete_missing_returns_false() {
    let mut mgr = SessionManager::new();
    assert!(!mgr.delete(Uuid::new_v4().as_u128()));
}

#[test]
fn submit_command_sets_pending_current_command() {
    let mut mgr = SessionManager::new();
    let session = mgr.create("cmd-submit".into(), "".into()).expect("a fresh id");

    let updated = mgr
        .submit_command(session.id, "echo hello".into())
        .expect("submit should succeed");

    assert_eq!(updated.state, SessionState::Pending);
    let current = updated.current_command.expect("command should be present");
    assert_eq!(current.command, "echo hello");
    assert_eq!(current.state, CommandState::Pending);
}

#[test]
fn submit_command_rejects_second_active_command() {
    let mut mgr = SessionManager::new();
    let session = mgr.create("cmd-conflict".into(), "".into()).expect("a fresh id");
    mgr.submit_command(session.id, "echo one".into()).unwrap();

    let err = mgr
        .submit_command(session.id, "echo two".into())
        .expect_err("second command should fail");

    assert_eq!(err, SessionCommandError::CommandAlreadyActive);
}

#[test]
fn approve_command_marks_session_executing() {
    let mut mgr = SessionManager::new();
    let session = mgr.create("cmd-approve".into(), "".into()).expect("a fresh id");
    mgr.submit_command(session.id, "echo run".into()).unwrap();

    let updated = mgr.approve_command(session.id).unwrap();

    assert_eq!(updated.state, SessionState::Executing);
    assert_eq!(
        updated
            .current_command
            .expect("command should be present")
            .state,
        CommandState::Executing
    );
}

#[test]
fn deny_command_moves_card_to_history() {
    let mut mgr = SessionManager::new();
    let session = mgr.create("cmd-deny".into(), "".into()).expect("a fresh id");
    mgr.submit_command(session.id, "echo no".into()).unwrap();

    let updated = mgr.deny_command(session.id).unwrap();

    assert_eq!(updated.state, SessionState::Idle);
    assert!(updated.current_command.is_none());
    let cards = mgr.list_commands(session.id, 10).unwrap();
    assert_eq!(cards.len(), 1);
    assert_eq!(cards[0].state, CommandState::Rejected);
}

#[test]
fn complete_command_moves_card_to_history() {
    let mut mgr = SessionManager::new();
    let session = mgr.create("cmd-complete".into(), "".into()).expect("a fresh id");
    mgr.submit_command(session.id, "echo yes".into()).unwrap();
    mgr.approve_command(session.id).unwrap();

    let updated = mgr
        .complete_command(session.id, 0, "yes\n".into(), "human")
        .unwrap();

    assert_eq!(updated.state, SessionState::Idle);
    assert!(updated.current_command.is_none());
    let cards = mgr.list_commands(session.id, 10).unwrap();
    assert_eq!(cards[0].state, CommandState::Completed(0));
    assert_eq!(cards[0].exit_code, Some(0));
    assert_eq!(cards[0].output, "yes\n");
}

// ── Laws on concrete values, and each error ──────────────────────────────────

#[test]
fn refused_requests_change_nothing_and_report_why() {
    let mut mgr = SessionManager::new();
    let missing = 42u128;
    assert_eq!(mgr.submit_command(missing, "x".into()).unwrap_err(), SessionCommandError::NotFound);
    assert_eq!(mgr.approve_command(missing).unwrap_err(), SessionCommandError::NotFound);
    assert_eq!(mgr.list_commands(missing, 1).unwrap_err(), SessionCommandError::NotFound);
    let s = mgr.create("errs".into(), "host".into()).expect("a fresh id");
    assert_eq!(mgr.approve_command(s.id).unwrap_err(), SessionCommandError::PendingCommandRequired);
    assert_eq!(mgr.deny_command(s.id).unwrap_err(), SessionCommandError::PendingCommandRequired);
    assert_eq!(
        mgr.complete_command(s.id, 1, String::new(), "human").unwrap_err(),
        SessionCommandError::ExecutingCommandRequired
    );
    assert_eq!(
        mgr.fail_command(s.id, String::new()).unwrap_err(),
        SessionCommandError::ExecutingCommandRequired
    );
    mgr.submit_command(s.id, "ls".into()).unwrap();
    assert_eq!(
        mgr.complete_command(s.id, 1, String::new(), "human").unwrap_err(),
        SessionCommandError::ExecutingCommandRequired
    );
    mgr.approve_command(s.id).unwrap();
    assert_eq!(mgr.deny_command(s.id).unwrap_err(), SessionCommandError::PendingCommandRequired);
    assert_eq!(mgr.approve_command(s.id).unwrap_err(), SessionCommandError::PendingCommandRequired);
    let current = mgr.get(s.id).unwrap();
    assert_eq!(current.state, SessionState::Executing);
    assert!(mgr.list_commands(s.id, 5).unwrap().is_empty());
}

#[test]
fn fail_command_aborts_pending_or_executing_and_history_is_newest_first() {
    let mut mgr = SessionManager::new();
    let s = mgr.create("hist".into(), "".into()).expect("a fresh id");
    mgr.submit_command(s.id, "one".into()).unwrap();
    let after = mgr.fail_command(s.id, "boom".into()).unwrap();
    assert_eq!(after.state, SessionState::Idle);
    mgr.submit_command(s.id, "two".into()).unwrap();
    mgr.approve_command(s.id).unwrap();
    mgr.complete_command(s.id, 3, "out".into(), "yolo").unwrap();
    mgr.submit_command(s.id, "three".into()).unwrap();
    mgr.deny_command(s.id).unwrap();

    let all = mgr.list_commands(s.id, 10).unwrap();
    let names: Vec<&str> = all.iter().map(|c| c.command.as_str()).collect();
    assert_eq!(names, vec!["three", "two", "one"]);
    assert_eq!(all[2].state, CommandState::Aborted);
    assert_eq!(all[2].output, "boom");
    assert_eq!(all[2].resolved_by.as_deref(), Some("system"));
    assert_eq!(all[1].resolved_by.as_deref(), Some("yolo"));
    assert_eq!(all[1].exit_code, Some(3));
    assert_eq!(all[0].resolved_by.as_deref(), Some("human"));
    assert!(all.iter().all(|c| c.resolved_at.is_some()));

    let newest = mgr.list_commands(s.id, 1).unwrap();
    assert_eq!(newest.len(), 1);
    assert_eq!(newest[0].command, "three");
    assert!(mgr.list_commands(s.id, 0).unwrap().is_empty());
}

#[test]
fn session_ids_are_version_four_uuids() {
    let mut mgr = SessionManager::new();
    let s = mgr.create("ids".into(), "".into()).expect("a fresh id");
    let uuid = Uuid::from_u128(s.id);
    assert_eq!(uuid.get_version_num(), 4);
    assert_eq!(s.host, "");
    assert!(!s.yolo);
}

#[test]
fn requests_on_one_session_leave_the_others_alone() {
    let mut mgr = SessionManager::new();
    let a = mgr.create("a".into(), "".into()).expect("a fresh id");
    let b = mgr.create("b".into(), "".into()).expect("a fresh id");
    mgr.submit_command(a.id, "echo a".into()).unwrap();
    mgr.approve_command(a.id).unwrap();
    mgr.complete_command(a.id, 3, "a\n".into(), "human").unwrap();
    let other = mgr.get(b.id).expect("b stays registered");
    assert_eq!(other.state, SessionState::Idle);
    assert!(other.current_command.is_none());
    assert!(mgr.list_commands(b.id, 10).unwrap().is_empty());
    assert!(mgr.delete(a.id));
    assert!(mgr.get(a.id).is_none());
    assert_eq!(mgr.get(b.id).expect("b survives a's deletion").name, "b");
}

#[test]
fn created_sessions_get_distinct_registered_ids() {
    let mut mgr = SessionManager::new();
    let mut ids = Vec::new();
    for k in 0..20 {
        let s = mgr.create(format!("s{k}"), "".into()).expect("a fresh id");
        assert!(!ids.contains(&s.id));
        ids.push(s.id);
    }
    assert_eq!(mgr.list().len(), 20);
}

#[test]
fn create_with_id_registers_under_the_given_id() {
    let mut mgr = SessionManager::new();
    let s = mgr
        .create_with_id(7, "seven".into(), "h".into())
        .expect("id 7 is free");
    assert_eq!(s.id, 7);
    assert_eq!(s.name, "seven");
    assert_eq!(s.host, "h");
    assert_eq!(s.state, SessionState::Idle);
    assert!(!s.yolo);
    assert!(s.current_command.is_none());
    assert_eq!(mgr.list().len(), 1);
    assert_eq!(mgr.get(7).expect("registered").name, "seven");
}

#[test]
fn create_with_id_refuses_a_registered_id() {
    let mut mgr = SessionManager::new();
    mgr.create_with_id(7, "first".into(), "".into()).expect("id 7 is free");
    assert!(mgr.create_with_id(7, "second".into(), "".into()).is_none());
    assert_eq!(mgr.list().len(), 1);
    assert_eq!(mgr.get(7).expect("registered").name, "first");
}


#[test]
fn command_card_with_id_is_fresh() {
    let card = CommandCard::with_id(42, "ls".to_string());
    assert_eq!(card.id, 42);
    assert_eq!(card.command, "ls");
    assert_eq!(card.state, CommandState::Pending);
    assert!(card.exit_code.is_none() && card.resolved_at.is_none() && card.resolved_by.is_none());
    assert!(card.output.is_empty());
    assert!(card.created_at >= 0);
}
