use shush::tmux_event::{parse_tmux_event, TmuxEvent};

#[test]
fn parse_begin_event() {
    assert_eq!(
        parse_tmux_event("%begin 123 456 7"),
        TmuxEvent::Begin(123, 456, 7)
    );
}

#[test]
fn parse_end_event() {
    assert_eq!(
        parse_tmux_event("%end 456 789 3"),
        TmuxEvent::End(456, 789, 3)
    );
}

#[test]
fn parse_error_event() {
    assert_eq!(
        parse_tmux_event("%error 999 0 1 no such window: @1"),
        TmuxEvent::Error(999, 0, 1, "no such window: @1".to_string())
    );
}

#[test]
fn parse_output_with_plain_text() {
    match parse_tmux_event("%output %1 hello world") {
        TmuxEvent::Output { pane, data } => {
            assert_eq!(pane, "1");
            assert_eq!(data, b"hello world");
        }
        other => panic!("expected Output, got {other:?}"),
    }
}

#[test]
fn parse_output_with_octal_escapes() {
    match parse_tmux_event("%output %1 hello\\012world\\033[0m") {
        TmuxEvent::Output { pane, data } => {
            assert_eq!(pane, "1");
            assert_eq!(data, b"hello\nworld\x1b[0m");
        }
        other => panic!("expected Output, got {other:?}"),
    }
}

#[test]
fn parse_window_add() {
    assert_eq!(
        parse_tmux_event("%window-add myproject"),
        TmuxEvent::WindowAdd("myproject".to_string())
    );
}

#[test]
fn parse_session_changed() {
    assert_eq!(
        parse_tmux_event("%session-changed dev 42"),
        TmuxEvent::SessionChanged("dev".to_string(), 42)
    );
}

#[test]
fn parse_unknown_line() {
    assert_eq!(
        parse_tmux_event("%unrecognized foo bar"),
        TmuxEvent::Unknown("%unrecognized foo bar".to_string())
    );
}

// ── Edge cases handled by the parser ─────────────────────────────────────────

#[test]
fn parse_begin_with_missing_and_malformed_fields_reads_zero() {
    assert_eq!(parse_tmux_event("%begin 5"), TmuxEvent::Begin(5, 0, 0));
    assert_eq!(parse_tmux_event("%begin x +7 -1"), TmuxEvent::Begin(0, 7, 0));
    assert_eq!(
        parse_tmux_event("%end 18446744073709551615 18446744073709551616 4294967296"),
        TmuxEvent::End(18446744073709551615, 0, 0)
    );
}

#[test]
fn parse_error_collapses_whitespace_in_message() {
    assert_eq!(
        parse_tmux_event("%error 1 2 3   bad\t\tthing  "),
        TmuxEvent::Error(1, 2, 3, "bad thing".to_string())
    );
    assert_eq!(
        parse_tmux_event("%error 1 2 3"),
        TmuxEvent::Error(1, 2, 3, String::new())
    );
}

#[test]
fn parse_output_edge_cases() {
    // No space after the pane id: the whole rest is the pane, data is empty.
    assert_eq!(
        parse_tmux_event("%output %12"),
        TmuxEvent::Output { pane: "12".to_string(), data: vec![] }
    );
    assert_eq!(
        parse_tmux_event("%output %\u{e9}"),
        TmuxEvent::Output { pane: "\u{e9}".to_string(), data: vec![] }
    );
    // Escapes that are not three octal digits are kept literally.
    assert_eq!(
        parse_tmux_event("%output %3 a\\9xy\\377\\400\\08"),
        TmuxEvent::Output { pane: "3".to_string(), data: b"a\\9xy\xff\x00\\08".to_vec() }
    );
    // A lone `%output ` without `%` is unknown.
    assert_eq!(
        parse_tmux_event("%output 1 x"),
        TmuxEvent::Unknown("%output 1 x".to_string())
    );
}

#[test]
fn parse_output_non_ascii_keeps_its_utf8_bytes() {
    assert_eq!(
        parse_tmux_event("%output %1 \u{0141}"),
        TmuxEvent::Output { pane: "1".to_string(), data: vec![0xc5, 0x81] }
    );
    assert_eq!(
        parse_tmux_event("%output %1 a\\101\u{e9}"),
        TmuxEvent::Output { pane: "1".to_string(), data: vec![0x61, 0x41, 0xc3, 0xa9] }
    );
    assert_eq!(
        parse_tmux_event("%output %1 \\\u{e9}"),
        TmuxEvent::Output { pane: "1".to_string(), data: vec![b'\\', 0xc3, 0xa9] }
    );
}

#[test]
fn parse_session_changed_needs_two_words() {
    assert_eq!(
        parse_tmux_event("%session-changed dev"),
        TmuxEvent::Unknown("%session-changed dev".to_string())
    );
    assert_eq!(
        parse_tmux_event("%session-changed $1 dev"),
        TmuxEvent::SessionChanged("$1".to_string(), 0)
    );
}

#[test]
fn written_lines_parse_back_to_their_events() {
    let events = vec![
        TmuxEvent::Begin(1700000000, 0, 4294967295),
        TmuxEvent::End(18446744073709551615, 12, 0),
        TmuxEvent::Error(5, 6, 7, "no such window: @1".to_string()),
        TmuxEvent::Error(5, 6, 7, String::new()),
        TmuxEvent::Output { pane: "12".to_string(), data: vec![0, 7, 27, 92, 200, 255, b'a'] },
        TmuxEvent::Output { pane: String::new(), data: Vec::new() },
        TmuxEvent::WindowAdd("my project".to_string()),
        TmuxEvent::SessionChanged("dev".to_string(), 42),
        TmuxEvent::Unknown("%exit".to_string()),
    ];
    for event in events {
        assert_eq!(parse_tmux_event(&event.to_line()), event);
    }
}

#[test]
fn written_lines_have_the_control_mode_shape() {
    assert_eq!(TmuxEvent::Begin(1, 2, 3).to_line(), "%begin 1 2 3");
    assert_eq!(
        TmuxEvent::Output { pane: "1".to_string(), data: b"a\n".to_vec() }.to_line(),
        "%output %1 \\141\\012"
    );
    assert_eq!(TmuxEvent::SessionChanged("dev".to_string(), 42).to_line(), "%session-changed dev 42");
}

#[test]
fn error_message_reads_back_with_single_spaces() {
    let line = TmuxEvent::Error(1, 2, 3, "  no   such\twindow ".to_string()).to_line();
    assert_eq!(parse_tmux_event(&line), TmuxEvent::Error(1, 2, 3, "no such window".to_string()));
}
