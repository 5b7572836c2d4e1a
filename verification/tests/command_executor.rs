use shush::command_executor::{
    approved_command, extract_command_output, record_execution, resolved_by_for, CompletionWatch,
};
use shush::marker::MarkerInjector;
use shush::session::{CommandState, SessionState};
use shush::session_manager::SessionManager;

#[test]
fn extract_command_output_strips_markers() {
    let (_, nonce) = MarkerInjector::new().inject("echo hello");
    let raw = format!(
        "noise\x1b_BEGIN_{}\x1b\\hello world\n\x1b_END_{}_0\x1b\\tail",
        nonce.hex(),
        nonce.hex()
    );

    let output = extract_command_output(raw.as_bytes(), &nonce, 0);

    assert_eq!(output, "hello world\n");
}

#[test]
fn wait_for_completion_detects_matching_end_marker_and_exit_code() {
    let (_, nonce) = MarkerInjector::new().inject("echo hello");
    let chunk = format!(
        "prefix\x1b_BEGIN_{}\x1b\\hello world\n\x1b_END_{}_7\x1b\\suffix",
        nonce.hex(),
        nonce.hex()
    );

    let mut watch = CompletionWatch::new(nonce.clone());
    let exit_code = watch.feed(chunk.as_bytes()).unwrap();
    let raw_output = watch.raw().clone();

    assert_eq!(exit_code, 7);
    assert_eq!(
        extract_command_output(&raw_output, &nonce, exit_code),
        "hello world\n"
    );
}

#[test]
fn extract_command_output_falls_back_to_raw_when_markers_missing() {
    let (_, nonce) = MarkerInjector::new().inject("echo hello");

    let output = extract_command_output(b"literal output\n", &nonce, 0);

    assert_eq!(output, "literal output\n");
}

// ── Edge cases ───────────────────────────────────────────────────────────────

#[test]
fn completion_watch_waits_for_complete_marker_across_chunks() {
    let (_, nonce) = MarkerInjector::new().inject("false");
    let (_, other) = MarkerInjector::new().inject("false");
    let mut watch = CompletionWatch::new(nonce.clone());
    let foreign = format!("\x1b_END_{}_3\x1b\\", other.hex());
    assert_eq!(watch.feed(foreign.as_bytes()), None);
    let end = format!("\x1b_END_{}_-1\x1b\\", nonce.hex());
    let (a, b) = end.as_bytes().split_at(end.len() - 1);
    assert_eq!(watch.feed(a), None);
    assert_eq!(watch.feed(b), Some(-1));
}

#[test]
fn extract_command_output_with_negative_code_and_swapped_markers() {
    let (_, nonce) = MarkerInjector::new().inject("x");
    let raw = format!("\x1b_BEGIN_{h}\x1b\\out\x1b_END_{h}_-2\x1b\\", h = nonce.hex());
    assert_eq!(extract_command_output(raw.as_bytes(), &nonce, -2), "out");
    let swapped = format!("\x1b_END_{h}_0\x1b\\mid\x1b_BEGIN_{h}\x1b\\", h = nonce.hex());
    assert_eq!(extract_command_output(swapped.as_bytes(), &nonce, 0), swapped);
    assert_eq!(
        extract_command_output(b"\xffok", &nonce, 0),
        "\u{fffd}ok"
    );
}

#[test]
fn approved_command_checks_session_and_state() {
    let mut mgr = SessionManager::new();
    assert_eq!(approved_command(&mgr, 1).unwrap_err(), "session not found");
    let s = mgr.create("x".into(), "".into()).expect("a fresh id");
    assert_eq!(approved_command(&mgr, s.id).unwrap_err(), "current command missing");
    mgr.submit_command(s.id, "ls".into()).unwrap();
    assert_eq!(
        approved_command(&mgr, s.id).unwrap_err(),
        "current command is not executing"
    );
    mgr.approve_command(s.id).unwrap();
    let (session, card) = approved_command(&mgr, s.id).unwrap();
    assert_eq!(session.id, s.id);
    assert_eq!(card.command, "ls");
    assert_eq!(resolved_by_for(true), "yolo");
    assert_eq!(resolved_by_for(false), "human");
}

fn executing(mgr: &mut SessionManager, command: &str) -> u128 {
    let s = mgr.create("exec".into(), "".into()).expect("a fresh id");
    mgr.submit_command(s.id, command.into()).unwrap();
    mgr.approve_command(s.id).unwrap();
    s.id
}

#[test]
fn record_execution_completes_with_the_output_between_markers() {
    let mut mgr = SessionManager::new();
    let id = executing(&mut mgr, "echo hi");
    let (_, nonce) = MarkerInjector::new().inject("echo hi");
    let raw = format!("x\x1b_BEGIN_{h}\x1b\\hi\n\x1b_END_{h}_3\x1b\\", h = nonce.hex());
    assert_eq!(record_execution(&mut mgr, id, true, &nonce, Ok((3, raw.into_bytes()))), Ok(()));
    let card = &mgr.list_commands(id, 1).unwrap()[0];
    assert_eq!(card.state, CommandState::Completed(3));
    assert_eq!(card.exit_code, Some(3));
    assert_eq!(card.output, "hi\n");
    assert_eq!(card.resolved_by.as_deref(), Some("yolo"));
    assert_eq!(mgr.get(id).unwrap().state, SessionState::Idle);
}

#[test]
fn record_execution_fails_the_command_with_the_error() {
    let mut mgr = SessionManager::new();
    let id = executing(&mut mgr, "sleep 99");
    let (_, nonce) = MarkerInjector::new().inject("sleep 99");
    let err = "timed out waiting for command completion".to_string();
    assert_eq!(record_execution(&mut mgr, id, false, &nonce, Err(err.clone())), Err(err.clone()));
    let card = &mgr.list_commands(id, 1).unwrap()[0];
    assert_eq!(card.state, CommandState::Aborted);
    assert_eq!(card.output, err);
    assert_eq!(card.resolved_by.as_deref(), Some("system"));
}

#[test]
fn record_execution_reports_a_refused_completion() {
    let mut mgr = SessionManager::new();
    let s = mgr.create("idle".into(), "".into()).expect("a fresh id");
    let (_, nonce) = MarkerInjector::new().inject("true");
    assert_eq!(
        record_execution(&mut mgr, s.id, false, &nonce, Ok((0, Vec::new()))),
        Err("failed to complete command: ExecutingCommandRequired".to_string())
    );
    assert_eq!(
        record_execution(&mut mgr, 12345, false, &nonce, Ok((0, Vec::new()))),
        Err("failed to complete command: NotFound".to_string())
    );
    assert!(mgr.get(s.id).unwrap().current_command.is_none());
}
