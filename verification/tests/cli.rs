use shush::cli::{Cli, CliError, ClientSubcommand, Command};

#[test]
fn parse_server_subcommand() {
    let cli = Cli::try_parse_from(["shush", "server"]).unwrap();
    let Command::Server(cmd) = cli.command else {
        unreachable!()
    };
    assert_eq!(cmd.port, 8100);
}

#[test]
fn parse_server_subcommand_with_port_override() {
    let cli = Cli::try_parse_from(["shush", "server", "--port", "18080"]).unwrap();
    let Command::Server(cmd) = cli.command else {
        unreachable!()
    };
    assert_eq!(cmd.port, 18080);
}

#[test]
fn parse_client_submit() {
    let cli = Cli::try_parse_from(["shush", "client", "submit"]).unwrap();
    assert!(matches!(cli.command, Command::Client(_)));
    let Command::Client(cmd) = cli.command else {
        unreachable!()
    };
    assert!(matches!(cmd.subcommand, ClientSubcommand::Submit));
}

#[test]
fn parse_client_sessions() {
    let cli = Cli::try_parse_from(["shush", "client", "sessions"]).unwrap();
    let Command::Client(cmd) = cli.command else {
        unreachable!()
    };
    assert!(matches!(cmd.subcommand, ClientSubcommand::Sessions));
}

#[test]
fn parse_client_stream() {
    let cli = Cli::try_parse_from(["shush", "client", "stream"]).unwrap();
    let Command::Client(cmd) = cli.command else {
        unreachable!()
    };
    assert!(matches!(cmd.subcommand, ClientSubcommand::Stream));
}

#[test]
fn parse_client_yolo() {
    let cli = Cli::try_parse_from(["shush", "client", "yolo"]).unwrap();
    let Command::Client(cmd) = cli.command else {
        unreachable!()
    };
    assert!(matches!(cmd.subcommand, ClientSubcommand::Yolo));
}

#[test]
fn reject_no_subcommand() {
    let err = Cli::try_parse_from(["shush"]).unwrap_err();
    assert!(
        err.message().contains("subcommand"),
        "expected subcommand error"
    );
}

// ── Each error, and the other forms of the grammar ───────────────────────────

#[test]
fn parse_server_port_forms() {
    let cli = Cli::parse_args(&["shush", "server", "--port=9000"]).unwrap();
    assert!(matches!(cli.command, Command::Server(ref s) if s.port == 9000));
    let cli = Cli::parse_args(&["shush", "server", "--port", "+0"]).unwrap();
    assert!(matches!(cli.command, Command::Server(ref s) if s.port == 0));
}

#[test]
fn cli_errors() {
    assert_eq!(
        Cli::parse_args(&["shush", "serve"]).unwrap_err(),
        CliError::UnrecognizedSubcommand
    );
    assert_eq!(
        Cli::parse_args(&["shush", "server", "extra"]).unwrap_err(),
        CliError::UnexpectedArgument
    );
    assert_eq!(
        Cli::parse_args(&["shush", "server", "--port"]).unwrap_err(),
        CliError::MissingValue
    );
    assert_eq!(
        Cli::parse_args(&["shush", "server", "--port", "65536"]).unwrap_err(),
        CliError::InvalidValue
    );
    assert_eq!(
        Cli::parse_args(&["shush", "server", "--port", "1", "--port=2"]).unwrap_err(),
        CliError::ArgumentConflict
    );
    assert_eq!(
        Cli::parse_args(&["shush", "client"]).unwrap_err(),
        CliError::MissingSubcommand
    );
    assert_eq!(
        Cli::parse_args(&["shush", "client", "submit", "now"]).unwrap_err(),
        CliError::UnexpectedArgument
    );
    assert_eq!(
        Cli::parse_args(&["shush", "client", "send"]).unwrap_err(),
        CliError::UnrecognizedSubcommand
    );
    assert_eq!(
        Cli::parse_args(&["shush", "--help"]).unwrap_err(),
        CliError::HelpRequested
    );
    assert!(CliError::HelpRequested.message().starts_with("Usage: shush"));
}

#[test]
fn every_port_reads_back_in_both_forms() {
    for p in [0u16, 1, 80, 8100, 65535] {
        let text = p.to_string();
        let spaced = Cli::parse_args(&["shush", "server", "--port", &text]).unwrap();
        assert!(matches!(spaced.command, Command::Server(ref s) if s.port == p));
        let joined = format!("--port={p}");
        let inline = Cli::parse_args(&["shush", "server", &joined]).unwrap();
        assert!(matches!(inline.command, Command::Server(ref s) if s.port == p));
    }
}
