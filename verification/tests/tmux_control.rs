use shush::tmux_control::{line_from_read, send_keys_command};

#[test]
fn send_keys_writes_correct_format() {
    assert_eq!(send_keys_command("hello"), "send-keys -l hello\n");
}

#[test]
fn send_keys_with_special_chars() {
    assert_eq!(
        send_keys_command("ls -la | grep foo"),
        "send-keys -l ls -la | grep foo\n"
    );
}

#[test]
fn read_line_returns_content() {
    assert_eq!(line_from_read("%begin 123 456 7\n").as_deref(), Some("%begin 123 456 7"));
}

#[test]
fn read_line_trailing_whitespace_stripped() {
    assert_eq!(line_from_read("hello\r\n").as_deref(), Some("hello"));
}

#[test]
fn read_line_returns_none_on_eof() {
    assert!(line_from_read("").is_none());
}

#[test]
fn read_line_keeps_leading_and_inner_whitespace() {
    assert_eq!(line_from_read("  a \t b \u{3000}\n").as_deref(), Some("  a \t b"));
    assert_eq!(line_from_read(" \n").as_deref(), Some(""));
}

#[test]
fn read_line_multiple_lines() {
    let lines: Vec<Option<String>> = ["first\n", "second\n", "third\n"]
        .iter()
        .map(|raw| line_from_read(raw))
        .collect();
    assert_eq!(lines[0].as_deref(), Some("first"));
    assert_eq!(lines[1].as_deref(), Some("second"));
    assert_eq!(lines[2].as_deref(), Some("third"));
}

#[test]
fn send_keys_sends_newlines_as_the_enter_key() {
    assert_eq!(
        send_keys_command("x\nkill-server"),
        "send-keys -l x\nsend-keys Enter\nsend-keys -l kill-server\n"
    );
    assert_eq!(send_keys_command("\n\n"), "send-keys Enter\nsend-keys Enter\n");
    assert_eq!(send_keys_command(""), "send-keys -l \n");
    assert_eq!(shush::tmux_control::enter_key_command(), "send-keys Enter\n");
}
