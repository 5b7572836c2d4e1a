use shush::remote_tmux::{
    attach_command, build_tmux_shell_command, has_session_command, is_local_host,
    kill_session_command, session_setup_commands, shell_quote, tmux_command,
    tmux_shell_command_for,
};

#[test]
fn local_hosts_are_detected() {
    assert!(is_local_host(""));
    assert!(is_local_host("localhost"));
    assert!(!is_local_host("dev@127.0.0.1"));
}

#[test]
fn build_tmux_shell_command_quotes_arguments() {
    let command = build_tmux_shell_command(&[
        "send-keys",
        "-l",
        "-t",
        "session one",
        "printf '\\033_BEGIN_nonce\\033\\\\'; echo hello",
    ]);

    assert!(command.starts_with("tmux -L 'shush' 'send-keys' '-l' '-t' 'session one' "));
    assert!(command.contains("printf"));
    assert!(command.contains("echo hello"));
    assert!(command.contains("\\033_BEGIN_nonce"));
}

#[test]
fn shell_quote_escapes_single_quotes() {
    assert_eq!(shell_quote("it's"), "'it'\\''s'");
    assert_eq!(shell_quote(""), "''");
    assert_eq!(build_tmux_shell_command(&[]), "tmux -L 'shush'");
}

#[test]
fn tmux_invocations_local_and_remote() {
    let (program, args) = tmux_command("", &["has-session", "-t", "s"], Some("/cfg"));
    assert_eq!(program, "tmux");
    assert_eq!(args, vec!["-L", "shush", "has-session", "-t", "s"]);

    let (program, args) = tmux_command("dev@box", &["kill-session"], Some("/cfg"));
    assert_eq!(program, "ssh");
    assert_eq!(
        args,
        vec!["-o", "BatchMode=yes", "-F", "/cfg", "dev@box", "tmux", "-L", "shush", "kill-session"]
    );

    let (program, args) = tmux_command("dev@box", &["ls"], Some(""));
    assert_eq!(program, "ssh");
    assert_eq!(args, vec!["-o", "BatchMode=yes", "dev@box", "tmux", "-L", "shush", "ls"]);

    let (program, args) = tmux_shell_command_for("localhost", &["a b"], None);
    assert_eq!(program, "bash");
    assert_eq!(args, vec!["-lc", "tmux -L 'shush' 'a b'"]);

    let (program, args) = tmux_shell_command_for("h", &["x"], None);
    assert_eq!(program, "ssh");
    assert_eq!(args, vec!["-o", "BatchMode=yes", "h", "tmux -L 'shush' 'x'"]);
}

#[test]
fn shell_command_quotes_every_word_so_the_shell_reads_it_back() {
    let command = build_tmux_shell_command(&["it's", "a\\b", "two words", ""]);
    assert_eq!(command, "tmux -L 'shush' 'it'\\''s' 'a\\b' 'two words' ''");
}

#[test]
fn session_setup_creates_only_missing_sessions_and_fixes_the_window() {
    assert_eq!(has_session_command("dev"), vec!["has-session", "-t", "dev"]);
    assert_eq!(kill_session_command("dev"), vec!["kill-session", "-t", "dev"]);
    assert_eq!(
        session_setup_commands("dev", false),
        vec![
            vec!["new-session", "-d", "-s", "dev"],
            vec!["set-window-option", "-t", "dev", "window-size", "manual"],
            vec!["resize-window", "-t", "dev", "-x", "220", "-y", "50"],
        ]
    );
    assert_eq!(session_setup_commands("dev", true).len(), 2);
}

#[test]
fn viewers_attach_read_only_locally_or_over_ssh() {
    let (program, args) = attach_command("", "dev", Some("/cfg"));
    assert_eq!(program, "tmux");
    assert_eq!(args, vec!["-L", "shush", "attach", "-f", "read-only,ignore-size", "-t", "dev"]);
    let (program, args) = attach_command("box", "dev", Some("/cfg"));
    assert_eq!(program, "ssh");
    assert_eq!(
        args,
        vec!["-F", "/cfg", "-o", "BatchMode=yes", "-tt", "box", "tmux", "-L", "shush", "attach", "-f", "read-only,ignore-size", "-t", "dev"]
    );
}
