use vstd::prelude::*;

use crate::text::{chars_of, decimal, lemma_parse_decimal, parse_unsigned, parse_unsigned_chars};

verus! {

/// The command line of `shush`.
#[derive(Debug)]
pub struct Cli {
    pub command: Command,
}

#[derive(Debug)]
pub enum Command {
    Server(ServerCmd),
    Client(ClientCmd),
}

/// `shush server [--port <PORT>]`
#[derive(Debug)]
pub struct ServerCmd {
    pub port: u16,
}

/// `shush client <SUBCOMMAND>`
#[derive(Debug)]
pub struct ClientCmd {
    pub subcommand: ClientSubcommand,
}

#[derive(Debug)]
pub enum ClientSubcommand {
    Submit,
    Sessions,
    Stream,
    Yolo,
}

/// Why a command line was refused.
#[derive(Debug, Clone, Copy, PartialEq, Eq, Structural)]
pub enum CliError {
    /// No subcommand where one is required.
    MissingSubcommand,
    /// A subcommand that does not exist.
    UnrecognizedSubcommand,
    /// An argument that the subcommand does not take.
    UnexpectedArgument,
    /// `--port` without a value.
    MissingValue,
    /// A port that is not a number from 0 to 65535.
    InvalidValue,
    /// `--port` given twice.
    ArgumentConflict,
    /// `-h`, `--help` or `help` in place of a subcommand.
    HelpRequested,
}

/// The port the server listens on when none is given.
pub open spec fn default_port() -> u16 {
    8100
}

/// `shush server` with `rest` after it, `port` being the port read so far.
pub open spec fn parse_server_args(rest: Seq<Seq<char>>, port: Option<u16>) -> Result<Cli, CliError>
    decreases rest.len(),
{
    if rest.len() == 0 {
        Ok(
            Cli {
                command: Command::Server(
                    ServerCmd {
                        port: match port {
                            Some(p) => p,
                            None => default_port(),
                        },
                    },
                ),
            },
        )
    } else if rest[0] == "-h"@ || rest[0] == "--help"@ {
        Err(CliError::HelpRequested)
    } else if rest[0] == "--port"@ || (rest[0].len() >= 7 && rest[0].take(7) == "--port="@) {
        let inline = rest[0] != "--port"@;
        if !inline && rest.len() < 2 {
            Err(CliError::MissingValue)
        } else if port is Some {
            Err(CliError::ArgumentConflict)
        } else {
            let value = if inline {
                rest[0].skip(7)
            } else {
                rest[1]
            };
            match parse_unsigned(value, 65535) {
                Some(p) => parse_server_args(rest.skip(if inline { 1 } else { 2 }), Some(p as u16)),
                None => Err(CliError::InvalidValue),
            }
        }
    } else {
        Err(CliError::UnexpectedArgument)
    }
}

/// `shush client` with `rest` after it.
pub open spec fn parse_client_args(rest: Seq<Seq<char>>) -> Result<Cli, CliError> {
    if rest.len() == 0 {
        Err(CliError::MissingSubcommand)
    } else {
        let sub = if rest[0] == "submit"@ {
            Some(ClientSubcommand::Submit)
        } else if rest[0] == "sessions"@ {
            Some(ClientSubcommand::Sessions)
        } else if rest[0] == "stream"@ {
            Some(ClientSubcommand::Stream)
        } else if rest[0] == "yolo"@ {
            Some(ClientSubcommand::Yolo)
        } else {
            None
        };
        match sub {
            None => if is_help(rest[0]) {
                Err(CliError::HelpRequested)
            } else {
                Err(CliError::UnrecognizedSubcommand)
            },
            Some(s) => if rest.len() > 1 {
                Err(CliError::UnexpectedArgument)
            } else {
                Ok(Cli { command: Command::Client(ClientCmd { subcommand: s }) })
            },
        }
    }
}

pub open spec fn is_help(a: Seq<char>) -> bool {
    a == "-h"@ || a == "--help"@ || a == "help"@
}

/// The command line `args` (the program's name first) read by the grammar
/// `shush server [--port <PORT> | --port=<PORT>]` or
/// `shush client (submit | sessions | stream | yolo)`.
pub open spec fn parse_cli(args: Seq<Seq<char>>) -> Result<Cli, CliError> {
    if args.len() < 2 {
        Err(CliError::MissingSubcommand)
    } else if args[1] == "server"@ {
        parse_server_args(args.skip(2), None)
    } else if args[1] == "client"@ {
        parse_client_args(args.skip(2))
    } else if is_help(args[1]) {
        Err(CliError::HelpRequested)
    } else {
        Err(CliError::UnrecognizedSubcommand)
    }
}

pub open spec fn args_view(args: Seq<&str>) -> Seq<Seq<char>> {
    args.map_values(|a: &str| a@)
}

fn same(a: &[char], lit: &str) -> (r: bool)
    ensures
        r == (a@ == lit@),
{
    let b = chars_of(lit);
    if a.len() != b.len() {
        return false;
    }
    let mut k: usize = 0;
    while k < a.len()
        invariant
            k <= a@.len(),
            a@.len() == b@.len(),
            b@ == lit@,
            forall|j: int| 0 <= j < k ==> a@[j] == b@[j],
        decreases a@.len() - k,
    {
        if a[k] != b[k] {
            return false;
        }
        k += 1;
    }
    assert(a@ =~= b@);
    true
}

fn is_help_arg(a: &[char]) -> (r: bool)
    ensures
        r == is_help(a@),
{
    same(a, "-h") || same(a, "--help") || same(a, "help")
}

fn parse_server_from(args: &Vec<Vec<char>>, start: usize) -> (r: Result<Cli, CliError>)
    requires
        start <= args@.len(),
    ensures
        r == parse_server_args(crate::text::words_view(args@).skip(start as int), None),
{
    let ghost all = crate::text::words_view(args@);
    let mut port: Option<u16> = None;
    let mut i = start;
    while i < args.len()
        invariant
            start <= i <= args@.len(),
            all == crate::text::words_view(args@),
            parse_server_args(all.skip(start as int), None) == parse_server_args(all.skip(i as int), port),
        decreases args@.len() - i,
    {
        let ghost rest = all.skip(i as int);
        assert(rest[0] == args@[i as int]@);
        let a = args[i].as_slice();
        if same(a, "-h") || same(a, "--help") {
            return Err(CliError::HelpRequested);
        }
        let exact = same(a, "--port");
        let inline = !exact && a.len() >= 7 && same(&a[0..7], "--port=");
        proof {
            if a@.len() >= 7 {
                assert(a@.subrange(0, 7) =~= a@.take(7));
            }
        }
        if !exact && !inline {
            return Err(CliError::UnexpectedArgument);
        }
        if exact && i + 1 >= args.len() {
            return Err(CliError::MissingValue);
        }
        if port.is_some() {
            return Err(CliError::ArgumentConflict);
        }
        let parsed = if inline {
            let v = &a[7..a.len()];
            assert(v@ =~= a@.skip(7));
            parse_unsigned_chars(v, 65535)
        } else {
            assert(rest[1] == args@[i + 1]@);
            parse_unsigned_chars(args[i + 1].as_slice(), 65535)
        };
        match parsed {
            Some(p) => {
                port = Some(p as u16);
                let step: usize = if inline { 1 } else { 2 };
                assert(rest.skip(step as int) =~= all.skip(i + step));
                i = i + step;
            },
            None => {
                return Err(CliError::InvalidValue);
            },
        }
    }
    assert(all.skip(i as int) =~= Seq::<Seq<char>>::empty());
    let p = match port {
        Some(p) => p,
        None => 8100,
    };
    Ok(Cli { command: Command::Server(ServerCmd { port: p }) })
}

fn parse_client_from(args: &Vec<Vec<char>>, start: usize) -> (r: Result<Cli, CliError>)
    requires
        start <= args@.len(),
    ensures
        r == parse_client_args(crate::text::words_view(args@).skip(start as int)),
{
    let ghost rest = crate::text::words_view(args@).skip(start as int);
    if start >= args.len() {
        return Err(CliError::MissingSubcommand);
    }
    assert(rest[0] == args@[start as int]@);
    let a = args[start].as_slice();
    let sub = if same(a, "submit") {
        Some(ClientSubcommand::Submit)
    } else if same(a, "sessions") {
        Some(ClientSubcommand::Sessions)
    } else if same(a, "stream") {
        Some(ClientSubcommand::Stream)
    } else if same(a, "yolo") {
        Some(ClientSubcommand::Yolo)
    } else {
        None
    };
    match sub {
        None => {
            if is_help_arg(a) {
                Err(CliError::HelpRequested)
            } else {
                Err(CliError::UnrecognizedSubcommand)
            }
        },
        Some(s) => {
            if args.len() - start > 1 {
                Err(CliError::UnexpectedArgument)
            } else {
                Ok(Cli { command: Command::Client(ClientCmd { subcommand: s }) })
            }
        },
    }
}

impl Cli {
    /// Reads the command line `args`, the program's name first.
    pub fn parse_args(args: &[&str]) -> (r: Result<Cli, CliError>)
        ensures
            r == parse_cli(args_view(args@)),
    {
        let mut words: Vec<Vec<char>> = Vec::new();
        let mut k: usize = 0;
        while k < args.len()
            invariant
                k <= args@.len(),
                crate::text::words_view(words@) == args_view(args@).take(k as int),
            decreases args@.len() - k,
        {
            let ghost before = words@;
            words.push(chars_of(args[k]));
            k += 1;
            assert(crate::text::words_view(words@) =~= crate::text::words_view(before).push(
                args@[k - 1]@,
            ));
            assert(args_view(args@).take(k as int) =~= args_view(args@).take(k - 1 as int).push(
                args@[k - 1]@,
            ));
        }
        assert(args_view(args@).take(args@.len() as int) =~= args_view(args@));
        if words.len() < 2 {
            return Err(CliError::MissingSubcommand);
        }
        let sub = words[1].as_slice();
        if same(sub, "server") {
            parse_server_from(&words, 2)
        } else if same(sub, "client") {
            parse_client_from(&words, 2)
        } else if is_help_arg(sub) {
            Err(CliError::HelpRequested)
        } else {
            Err(CliError::UnrecognizedSubcommand)
        }
    }

    /// Reads the command line `args`, the program's name first.
    pub fn try_parse_from<const N: usize>(args: [&str; N]) -> (r: Result<Cli, CliError>)
        ensures
            r == parse_cli(args_view(args@)),
    {
        Cli::parse_args(args.as_slice())
    }
}

/// The server command line reads back the port it is given, in either form, and the
/// default port when it is given none.
pub proof fn lemma_server_port_reads_back(p: u16)
    ensures
        parse_cli(seq!["shush"@, "server"@, "--port"@, decimal(p as nat)]) == Ok::<Cli, CliError>(
            Cli { command: Command::Server(ServerCmd { port: p }) },
        ),
        parse_cli(seq!["shush"@, "server"@, "--port="@ + decimal(p as nat)]) == Ok::<Cli, CliError>(
            Cli { command: Command::Server(ServerCmd { port: p }) },
        ),
        parse_cli(seq!["shush"@, "server"@]) == Ok::<Cli, CliError>(
            Cli { command: Command::Server(ServerCmd { port: default_port() }) },
        ),
{
    reveal_strlit("--port");
    reveal_strlit("--port=");
    reveal_strlit("-h");
    reveal_strlit("--help");
    lemma_parse_decimal(p as nat, 65535);
    let d = decimal(p as nat);
    let a = seq!["shush"@, "server"@, "--port"@, d];
    assert(a.skip(2) =~= seq!["--port"@, d]);
    assert(seq!["--port"@, d].skip(2) =~= Seq::<Seq<char>>::empty());
    let inline = "--port="@ + d;
    let b = seq!["shush"@, "server"@, inline];
    assert(b.skip(2) =~= seq![inline]);
    assert(inline.take(7) =~= "--port="@);
    assert(inline.skip(7) =~= d);
    assert(inline.len() != ("--port"@).len());
    assert(inline[2] != "-h"@[1]);
    assert(inline[2] != "--help"@[2]);
    assert("--port"@[2] != "--help"@[2]);
    assert(seq![inline].skip(1) =~= Seq::<Seq<char>>::empty());
    assert(seq!["shush"@, "server"@].skip(2) =~= Seq::<Seq<char>>::empty());
    let done = Ok::<Cli, CliError>(Cli { command: Command::Server(ServerCmd { port: p }) });
    assert(parse_server_args(Seq::<Seq<char>>::empty(), Some(p)) == done);
    assert(parse_server_args(seq!["--port"@, d], None) == done);
    assert(parse_server_args(seq![inline], None) == done);
}

impl CliError {
    /// What the error says to the user.
    pub fn message(&self) -> (s: String)
        ensures
            s@ == error_message(*self),
    {
        match self {
            CliError::MissingSubcommand => "error: 'shush' requires a subcommand but one was not provided".to_owned(),
            CliError::UnrecognizedSubcommand => "error: unrecognized subcommand".to_owned(),
            CliError::UnexpectedArgument => "error: unexpected argument found".to_owned(),
            CliError::MissingValue => "error: a value is required for '--port <PORT>' but none was supplied".to_owned(),
            CliError::InvalidValue => "error: invalid value for '--port <PORT>': not a port number from 0 to 65535".to_owned(),
            CliError::ArgumentConflict => "error: the argument '--port <PORT>' cannot be used multiple times".to_owned(),
            CliError::HelpRequested => "Usage: shush <COMMAND>\n\nCommands:\n  server\n  client\n".to_owned(),
        }
    }
}

/// The text of each error.
pub open spec fn error_message(e: CliError) -> Seq<char> {
    match e {
        CliError::MissingSubcommand => "error: 'shush' requires a subcommand but one was not provided"@,
        CliError::UnrecognizedSubcommand => "error: unrecognized subcommand"@,
        CliError::UnexpectedArgument => "error: unexpected argument found"@,
        CliError::MissingValue => "error: a value is required for '--port <PORT>' but none was supplied"@,
        CliError::InvalidValue => "error: invalid value for '--port <PORT>': not a port number from 0 to 65535"@,
        CliError::ArgumentConflict => "error: the argument '--port <PORT>' cannot be used multiple times"@,
        CliError::HelpRequested => "Usage: shush <COMMAND>\n\nCommands:\n  server\n  client\n"@,
    }
}


/// Asking for help is answered with help: `-h`, `--help` or `help` right after the
/// program's name, `-h`, `--help` or `help` right after `client`, and `-h` or `--help`
/// right after `server`, whatever follows.
pub proof fn lemma_help_flags_ask_for_help(prog: Seq<char>, rest: Seq<Seq<char>>)
    ensures
        parse_cli(seq![prog, "-h"@] + rest) == Err::<Cli, CliError>(CliError::HelpRequested),
        parse_cli(seq![prog, "--help"@] + rest) == Err::<Cli, CliError>(CliError::HelpRequested),
        parse_cli(seq![prog, "help"@] + rest) == Err::<Cli, CliError>(CliError::HelpRequested),
        parse_cli(seq![prog, "client"@, "-h"@] + rest) == Err::<Cli, CliError>(CliError::HelpRequested),
        parse_cli(seq![prog, "client"@, "--help"@] + rest) == Err::<Cli, CliError>(CliError::HelpRequested),
        parse_cli(seq![prog, "client"@, "help"@] + rest) == Err::<Cli, CliError>(CliError::HelpRequested),
        parse_cli(seq![prog, "server"@, "-h"@] + rest) == Err::<Cli, CliError>(CliError::HelpRequested),
        parse_cli(seq![prog, "server"@, "--help"@] + rest) == Err::<Cli, CliError>(CliError::HelpRequested),
{
    reveal_strlit("-h");
    reveal_strlit("--help");
    reveal_strlit("help");
    reveal_strlit("client");
    reveal_strlit("server");
    lemma_help_flag(prog, rest, "-h"@);
    lemma_help_flag(prog, rest, "--help"@);
    lemma_help_flag(prog, rest, "help"@);
}

proof fn lemma_help_flag(prog: Seq<char>, rest: Seq<Seq<char>>, a: Seq<char>)
    requires
        a == "-h"@ || a == "--help"@ || a == "help"@,
    ensures
        parse_cli(seq![prog, a] + rest) == Err::<Cli, CliError>(CliError::HelpRequested),
        parse_cli(seq![prog, "client"@, a] + rest) == Err::<Cli, CliError>(CliError::HelpRequested),
        a != "help"@ ==> parse_cli(seq![prog, "server"@, a] + rest) == Err::<Cli, CliError>(
            CliError::HelpRequested,
        ),
{
    reveal_strlit("-h");
    reveal_strlit("--help");
    reveal_strlit("help");
    reveal_strlit("client");
    reveal_strlit("server");
    reveal_strlit("submit");
    reveal_strlit("sessions");
    reveal_strlit("stream");
    reveal_strlit("yolo");
    let x = seq![prog, a] + rest;
    assert(x[1] == a);
    assert(a[0] != "server"@[0] && a[0] != "client"@[0]);
    assert(a != "server"@ && a != "client"@);
    let y = seq![prog, "client"@, a] + rest;
    assert(y[1] == "client"@);
    assert(y.skip(2)[0] == a);
    assert(a[0] != "submit"@[0] && a[0] != "yolo"@[0]);
    assert(a != "submit"@ && a != "sessions"@ && a != "stream"@ && a != "yolo"@);
    let z = seq![prog, "server"@, a] + rest;
    assert(z[1] == "server"@);
    assert(z.skip(2)[0] == a);
}

} // verus!
