use vstd::prelude::*;

use crate::text::{chars_of, join_space, string_from_chars};

verus! {

/// The name of the tmux server socket that every session lives on.
pub open spec fn tmux_socket() -> Seq<char> {
    "shush"@
}

pub open spec fn strs_view(v: Seq<&str>) -> Seq<Seq<char>> {
    v.map_values(|s: &str| s@)
}

pub open spec fn strings_view(v: Seq<String>) -> Seq<Seq<char>> {
    v.map_values(|s: String| s@)
}

fn same_chars(a: &[char], b: &[char]) -> (r: bool)
    ensures
        r == (a@ == b@),
{
    if a.len() != b.len() {
        return false;
    }
    let mut k: usize = 0;
    while k < a.len()
        invariant
            k <= a@.len(),
            a@.len() == b@.len(),
            forall|j: int| 0 <= j < k ==> a@[j] == b@[j],
        decreases a@.len() - k,
    {
        if a[k] != b[k] {
            return false;
        }
        k += 1;
    }
    assert(a@ =~= b@);
    true
}

/// Whether `host` names this machine: empty, or `localhost`.
pub fn is_local_host(host: &str) -> (r: bool)
    ensures
        r == (host@.len() == 0 || host@ == "localhost"@),
{
    let h = chars_of(host);
    let local = chars_of("localhost");
    h.len() == 0 || same_chars(h.as_slice(), local.as_slice())
}

/// Each `'` of `s` written as `'\''`, the rest as it is.
pub open spec fn escape_single_quotes(s: Seq<char>) -> Seq<char>
    decreases s.len(),
{
    if s.len() == 0 {
        seq![]
    } else {
        (if s[0] == '\'' {
            seq!['\'', '\\', '\'', '\'']
        } else {
            seq![s[0]]
        }) + escape_single_quotes(s.drop_first())
    }
}

/// `s` as one single-quoted shell word.
pub open spec fn shell_quoted(s: Seq<char>) -> Seq<char> {
    seq!['\''] + escape_single_quotes(s) + seq!['\'']
}

proof fn lemma_escape_push(s: Seq<char>, c: char)
    ensures
        escape_single_quotes(s.push(c)) == escape_single_quotes(s) + escape_single_quotes(seq![c]),
    decreases s.len(),
{
    if s.len() > 0 {
        lemma_escape_push(s.drop_first(), c);
        assert(s.push(c).drop_first() =~= s.drop_first().push(c));
        assert(escape_single_quotes(s.push(c)) =~= (if s[0] == '\'' {
            seq!['\'', '\\', '\'', '\'']
        } else {
            seq![s[0]]
        }) + escape_single_quotes(s.drop_first().push(c)));
    } else {
        assert(s.push(c) =~= seq![c]);
    }
}

/// Quotes `input` as one shell word: inside single quotes, each `'` becomes `'\''`.
pub fn shell_quote(input: &str) -> (r: String)
    ensures
        r@ == shell_quoted(input@),
{
    let cs = chars_of(input);
    let mut out: Vec<char> = Vec::new();
    out.push('\'');
    let mut k: usize = 0;
    while k < cs.len()
        invariant
            k <= cs@.len(),
            cs@ == input@,
            out@ == seq!['\''] + escape_single_quotes(cs@.take(k as int)),
        decreases cs@.len() - k,
    {
        let c = cs[k];
        proof {
            lemma_escape_push(cs@.take(k as int), c);
            assert(cs@.take(k + 1) =~= cs@.take(k as int).push(c));
            assert(seq![c].drop_first() =~= Seq::<char>::empty());
            assert(escape_single_quotes(Seq::<char>::empty()) =~= Seq::<char>::empty());
            assert(seq![c][0] == c);
            assert(escape_single_quotes(seq![c]) =~= (if c == '\'' {
                seq!['\'', '\\', '\'', '\'']
            } else {
                seq![c]
            }));
        }
        let ghost before = out@;
        if c == '\'' {
            out.push('\'');
            out.push('\\');
            out.push('\'');
            out.push('\'');
        } else {
            out.push(c);
        }
        k += 1;
        assert(out@ =~= before + escape_single_quotes(seq![c]));
    }
    out.push('\'');
    assert(cs@.take(cs@.len() as int) =~= cs@);
    assert(out@ =~= shell_quoted(input@));
    string_from_chars(out.as_slice())
}

/// The shell command line that runs tmux on the `shush` socket with `tmux_args`,
/// every word quoted.
pub open spec fn tmux_shell_command(tmux_args: Seq<Seq<char>>) -> Seq<char> {
    join_space(
        seq!["tmux"@, "-L"@, shell_quoted(tmux_socket())] + tmux_args.map_values(
            |a: Seq<char>| shell_quoted(a),
        ),
    )
}

/// Builds the shell command line that runs tmux on the `shush` socket with
/// `tmux_args`, every word quoted.
pub fn build_tmux_shell_command(tmux_args: &[&str]) -> (r: String)
    ensures
        r@ == tmux_shell_command(strs_view(tmux_args@)),
{
    let ghost words = seq!["tmux"@, "-L"@, shell_quoted(tmux_socket())] + strs_view(
        tmux_args@,
    ).map_values(|a: Seq<char>| shell_quoted(a));
    let mut parts: Vec<Vec<char>> = Vec::new();
    parts.push(chars_of("tmux"));
    parts.push(chars_of("-L"));
    let sock = shell_quote("shush");
    parts.push(chars_of(sock.as_str()));
    let mut k: usize = 0;
    while k < tmux_args.len()
        invariant
            k <= tmux_args@.len(),
            crate::text::words_view(parts@) == words.take(3 + k),
            words == seq!["tmux"@, "-L"@, shell_quoted(tmux_socket())] + strs_view(
                tmux_args@,
            ).map_values(|a: Seq<char>| shell_quoted(a)),
        decreases tmux_args@.len() - k,
    {
        let q = shell_quote(tmux_args[k]);
        let ghost before = parts@;
        parts.push(chars_of(q.as_str()));
        k += 1;
        assert(crate::text::words_view(parts@) =~= crate::text::words_view(before).push(q@));
        assert(words.take(3 + k) =~= words.take(3 + k - 1).push(words[3 + k - 1]));
    }
    assert(words.take(3 + tmux_args@.len() as int) =~= words);
    let joined = crate::text::join_words_from(&parts, 0);
    assert(crate::text::words_view(parts@).skip(0) =~= crate::text::words_view(parts@));
    string_from_chars(joined.as_slice())
}

// ── Invocations ──────────────────────────────────────────────────────────────

/// The program and arguments that run tmux with `tmux_args` on the `shush` socket of
/// `host`: tmux itself for this machine, otherwise ssh in batch mode (with the given
/// ssh config file, when there is a non-empty one) running tmux on the host.
pub open spec fn tmux_invocation(host: Seq<char>, tmux_args: Seq<Seq<char>>, ssh_config: Option<Seq<char>>) -> (Seq<char>, Seq<Seq<char>>) {
    if host.len() == 0 || host == "localhost"@ {
        ("tmux"@, seq!["-L"@, tmux_socket()] + tmux_args)
    } else {
        (
            "ssh"@,
            ssh_options(ssh_config) + seq![host, "tmux"@, "-L"@, tmux_socket()] + tmux_args,
        )
    }
}

/// `-o BatchMode=yes`, then `-F <config>` when a non-empty ssh config file is set.
pub open spec fn ssh_options(ssh_config: Option<Seq<char>>) -> Seq<Seq<char>> {
    seq!["-o"@, "BatchMode=yes"@] + match ssh_config {
        Some(c) => if c.len() > 0 {
            seq!["-F"@, c]
        } else {
            seq![]
        },
        None => seq![],
    }
}

/// The program and arguments that run the quoted tmux command line through a login
/// shell on this machine, or through ssh on a remote host.
pub open spec fn tmux_shell_invocation(host: Seq<char>, tmux_args: Seq<Seq<char>>, ssh_config: Option<Seq<char>>) -> (Seq<char>, Seq<Seq<char>>) {
    if host.len() == 0 || host == "localhost"@ {
        ("bash"@, seq!["-lc"@, tmux_shell_command(tmux_args)])
    } else {
        ("ssh"@, ssh_options(ssh_config) + seq![host, tmux_shell_command(tmux_args)])
    }
}

fn push_string(v: &mut Vec<String>, s: &str)
    ensures
        strings_view(final(v)@) == strings_view(old(v)@).push(s@),
{
    let ghost before = v@;
    let cs = chars_of(s);
    v.push(string_from_chars(cs.as_slice()));
    assert(strings_view(v@) =~= strings_view(before).push(s@));
}

fn push_ssh_options(v: &mut Vec<String>, ssh_config: Option<&str>)
    ensures
        strings_view(final(v)@) == strings_view(old(v)@) + ssh_options(
            match ssh_config {
                Some(c) => Some(c@),
                None => None,
            },
        ),
{
    let ghost before = strings_view(v@);
    push_string(v, "-o");
    push_string(v, "BatchMode=yes");
    match ssh_config {
        Some(c) => {
            if chars_of(c).len() > 0 {
                push_string(v, "-F");
                push_string(v, c);
            }
        },
        None => {},
    }
    assert(strings_view(v@) =~= before + ssh_options(
        match ssh_config {
            Some(c) => Some(c@),
            None => None,
        },
    ));
}

fn push_strs(v: &mut Vec<String>, args: &[&str])
    ensures
        strings_view(final(v)@) == strings_view(old(v)@) + strs_view(args@),
{
    let ghost before = strings_view(v@);
    let mut k: usize = 0;
    while k < args.len()
        invariant
            k <= args@.len(),
            strings_view(v@) == before + strs_view(args@).take(k as int),
        decreases args@.len() - k,
    {
        push_string(v, args[k]);
        k += 1;
        assert(strs_view(args@).take(k as int) =~= strs_view(args@).take(k - 1 as int).push(
            args@[k - 1]@,
        ));
    }
    assert(strs_view(args@).take(args@.len() as int) =~= strs_view(args@));
}

/// The program and arguments that run tmux with `tmux_args` for `host`.
pub fn tmux_command(host: &str, tmux_args: &[&str], ssh_config: Option<&str>) -> (r: (
    String,
    Vec<String>,
))
    ensures
        (r.0@, strings_view(r.1@)) == tmux_invocation(
            host@,
            strs_view(tmux_args@),
            match ssh_config {
                Some(c) => Some(c@),
                None => None,
            },
        ),
{
    let mut args: Vec<String> = Vec::new();
    assert(strings_view(args@) =~= Seq::<Seq<char>>::empty());
    if is_local_host(host) {
        push_string(&mut args, "-L");
        push_string(&mut args, "shush");
        push_strs(&mut args, tmux_args);
        (string_from_chars(chars_of("tmux").as_slice()), args)
    } else {
        push_ssh_options(&mut args, ssh_config);
        push_string(&mut args, host);
        push_string(&mut args, "tmux");
        push_string(&mut args, "-L");
        push_string(&mut args, "shush");
        push_strs(&mut args, tmux_args);
        (string_from_chars(chars_of("ssh").as_slice()), args)
    }
}

/// The program and arguments that run the quoted tmux command line for `host`.
pub fn tmux_shell_command_for(host: &str, tmux_args: &[&str], ssh_config: Option<&str>) -> (r: (
    String,
    Vec<String>,
))
    ensures
        (r.0@, strings_view(r.1@)) == tmux_shell_invocation(
            host@,
            strs_view(tmux_args@),
            match ssh_config {
                Some(c) => Some(c@),
                None => None,
            },
        ),
{
    let command = build_tmux_shell_command(tmux_args);
    let mut args: Vec<String> = Vec::new();
    assert(strings_view(args@) =~= Seq::<Seq<char>>::empty());
    if is_local_host(host) {
        push_string(&mut args, "-lc");
        push_string(&mut args, command.as_str());
        (string_from_chars(chars_of("bash").as_slice()), args)
    } else {
        push_ssh_options(&mut args, ssh_config);
        push_string(&mut args, host);
        push_string(&mut args, command.as_str());
        (string_from_chars(chars_of("ssh").as_slice()), args)
    }
}

// ── Session setup and viewers ───────────────────────────────────────────────

/// `has-session -t <name>`: whether session `name` exists.
pub open spec fn has_session_args(name: Seq<char>) -> Seq<Seq<char>> {
    seq!["has-session"@, "-t"@, name]
}

/// `kill-session -t <name>`.
pub open spec fn kill_session_args(name: Seq<char>) -> Seq<Seq<char>> {
    seq!["kill-session"@, "-t"@, name]
}

/// The tmux commands that prepare session `name` once it is known whether it exists:
/// `new-session -d -s <name>` only when it does not, then a manually sized window
/// (`set-window-option -t <name> window-size manual`) of 220 columns and 50 rows
/// (`resize-window -t <name> -x 220 -y 50`), the geometry that viewers open with.
pub open spec fn session_setup_args(name: Seq<char>, exists: bool) -> Seq<Seq<Seq<char>>> {
    (if exists {
        seq![]
    } else {
        seq![seq!["new-session"@, "-d"@, "-s"@, name]]
    }) + seq![
        seq!["set-window-option"@, "-t"@, name, "window-size"@, "manual"@],
        seq!["resize-window"@, "-t"@, name, "-x"@, "220"@, "-y"@, "50"@],
    ]
}

pub open spec fn commands_view(v: Seq<Vec<String>>) -> Seq<Seq<Seq<char>>> {
    v.map_values(|c: Vec<String>| strings_view(c@))
}

/// The arguments of `has-session -t <name>`.
pub fn has_session_command(name: &str) -> (v: Vec<String>)
    ensures
        strings_view(v@) == has_session_args(name@),
{
    let mut v: Vec<String> = Vec::new();
    assert(strings_view(v@) =~= Seq::<Seq<char>>::empty());
    push_string(&mut v, "has-session");
    push_string(&mut v, "-t");
    push_string(&mut v, name);
    v
}

/// The arguments of `kill-session -t <name>`.
pub fn kill_session_command(name: &str) -> (v: Vec<String>)
    ensures
        strings_view(v@) == kill_session_args(name@),
{
    let mut v: Vec<String> = Vec::new();
    assert(strings_view(v@) =~= Seq::<Seq<char>>::empty());
    push_string(&mut v, "kill-session");
    push_string(&mut v, "-t");
    push_string(&mut v, name);
    v
}

/// The tmux commands, one argument vector each, that prepare session `name` given
/// whether `has-session` found it.
pub fn session_setup_commands(name: &str, exists: bool) -> (v: Vec<Vec<String>>)
    ensures
        commands_view(v@) == session_setup_args(name@, exists),
{
    let mut v: Vec<Vec<String>> = Vec::new();
    if !exists {
        let mut c: Vec<String> = Vec::new();
        assert(strings_view(c@) =~= Seq::<Seq<char>>::empty());
        push_string(&mut c, "new-session");
        push_string(&mut c, "-d");
        push_string(&mut c, "-s");
        push_string(&mut c, name);
        assert(strings_view(c@) =~= seq!["new-session"@, "-d"@, "-s"@, name@]);
        v.push(c);
    }
    let mut w: Vec<String> = Vec::new();
    assert(strings_view(w@) =~= Seq::<Seq<char>>::empty());
    push_string(&mut w, "set-window-option");
    push_string(&mut w, "-t");
    push_string(&mut w, name);
    push_string(&mut w, "window-size");
    push_string(&mut w, "manual");
    assert(strings_view(w@) =~= seq!["set-window-option"@, "-t"@, name@, "window-size"@, "manual"@]);
    v.push(w);
    let mut r: Vec<String> = Vec::new();
    assert(strings_view(r@) =~= Seq::<Seq<char>>::empty());
    push_string(&mut r, "resize-window");
    push_string(&mut r, "-t");
    push_string(&mut r, name);
    push_string(&mut r, "-x");
    push_string(&mut r, "220");
    push_string(&mut r, "-y");
    push_string(&mut r, "50");
    assert(strings_view(r@) =~= seq!["resize-window"@, "-t"@, name@, "-x"@, "220"@, "-y"@, "50"@]);
    v.push(r);
    let ghost n = v@.len();
    assert(n == if exists { 2int } else { 3int });
    assert(commands_view(v@)[n - 1] == strings_view(v@[n - 1]@));
    assert(commands_view(v@)[n - 2] == strings_view(v@[n - 2]@));
    if !exists {
        assert(commands_view(v@)[0] == strings_view(v@[0]@));
    }
    assert(commands_view(v@) =~= session_setup_args(name@, exists));
    v
}

/// The program and arguments of a read-only viewer of session `name`: tmux attached
/// with `-f read-only,ignore-size` on this machine; for a remote host, ssh (with
/// `-F <config>` first when a non-empty ssh config file is set, then
/// `-o BatchMode=yes`) allocating a terminal (`-tt`) and running that tmux on the host.
pub open spec fn attach_invocation(host: Seq<char>, name: Seq<char>, ssh_config: Option<Seq<char>>) -> (Seq<char>, Seq<Seq<char>>) {
    let attach = seq!["attach"@, "-f"@, "read-only,ignore-size"@, "-t"@, name];
    if host.len() == 0 || host == "localhost"@ {
        ("tmux"@, seq!["-L"@, tmux_socket()] + attach)
    } else {
        (
            "ssh"@,
            (match ssh_config {
                Some(c) => if c.len() > 0 {
                    seq!["-F"@, c]
                } else {
                    seq![]
                },
                None => seq![],
            }) + seq!["-o"@, "BatchMode=yes"@, "-tt"@, host, "tmux"@, "-L"@, tmux_socket()]
                + attach,
        )
    }
}

/// The program and arguments of a read-only viewer of session `name` on `host`.
pub fn attach_command(host: &str, name: &str, ssh_config: Option<&str>) -> (r: (String, Vec<String>))
    ensures
        (r.0@, strings_view(r.1@)) == attach_invocation(
            host@,
            name@,
            match ssh_config {
                Some(c) => Some(c@),
                None => None,
            },
        ),
{
    let mut args: Vec<String> = Vec::new();
    assert(strings_view(args@) =~= Seq::<Seq<char>>::empty());
    let local = is_local_host(host);
    if !local {
        match ssh_config {
            Some(c) => {
                if chars_of(c).len() > 0 {
                    push_string(&mut args, "-F");
                    push_string(&mut args, c);
                }
            },
            None => {},
        }
        push_string(&mut args, "-o");
        push_string(&mut args, "BatchMode=yes");
        push_string(&mut args, "-tt");
        push_string(&mut args, host);
        push_string(&mut args, "tmux");
    }
    push_string(&mut args, "-L");
    push_string(&mut args, "shush");
    push_string(&mut args, "attach");
    push_string(&mut args, "-f");
    push_string(&mut args, "read-only,ignore-size");
    push_string(&mut args, "-t");
    push_string(&mut args, name);
    let program = if local {
        string_from_chars(chars_of("tmux").as_slice())
    } else {
        string_from_chars(chars_of("ssh").as_slice())
    };
    proof {
        let cfg = match ssh_config {
            Some(c) => Some(c@),
            None => None,
        };
        assert(strings_view(args@) =~= attach_invocation(host@, name@, cfg).1);
    }
    (program, args)
}

} // verus!
