use vstd::prelude::*;

use crate::remote_tmux::{escape_single_quotes, shell_quoted, tmux_shell_command, tmux_socket};
use crate::text::join_space;
use crate::tmux_event::{first_index_of, lemma_first_index_bound, lemma_first_index_found};

verus! {

// ── How a shell reads a command line ─────────────────────────────────────────

/// Characters that a POSIX shell takes as they are in an unquoted word: ASCII letters
/// and digits, `-`, `_`, `.` and `/`.
pub open spec fn shell_plain(c: char) -> bool {
    ('a' <= c <= 'z') || ('A' <= c <= 'Z') || ('0' <= c <= '9') || c == '-' || c == '_' || c
        == '.' || c == '/'
}

/// How a POSIX shell splits a command line into words, for lines made of spaces,
/// single-quoted strings (taken as they are), backslash-escaped characters and plain
/// characters; `None` for a line with anything else, such as an unterminated quote.
/// `word` is the word read so far and `open` whether one has started: a quoted empty
/// string starts a word.
pub open spec fn shell_read(t: Seq<char>, word: Seq<char>, open: bool) -> Option<Seq<Seq<char>>>
    decreases t.len(),
{
    if t.len() == 0 {
        Some(
            if open {
                seq![word]
            } else {
                seq![]
            },
        )
    } else if t[0] == ' ' {
        match shell_read(t.drop_first(), seq![], false) {
            Some(ws) => Some(
                if open {
                    seq![word] + ws
                } else {
                    ws
                },
            ),
            None => None,
        }
    } else if t[0] == '\'' {
        match first_index_of(t.drop_first(), '\'') {
            Some(k) => {
                proof {
                    lemma_first_index_bound(t.drop_first(), '\'');
                }
                shell_read(t.skip(k + 2), word + t.subrange(1, k + 1), true)
            },
            None => None,
        }
    } else if t[0] == '\\' && t.len() >= 2 {
        shell_read(t.skip(2), word.push(t[1]), true)
    } else if shell_plain(t[0]) {
        shell_read(t.drop_first(), word.push(t[0]), true)
    } else {
        None
    }
}

/// The words a POSIX shell reads from the command line `t`, if it is of that form.
pub open spec fn shell_words(t: Seq<char>) -> Option<Seq<Seq<char>>> {
    shell_read(t, seq![], false)
}

/// `rest` ends the word before it: nothing follows, or a space.
pub open spec fn ends_word(rest: Seq<char>) -> bool {
    rest.len() == 0 || rest[0] == ' '
}

// ── Quoted words ─────────────────────────────────────────────────────────────

proof fn lemma_escape_concat(x: Seq<char>, y: Seq<char>)
    ensures
        escape_single_quotes(x + y) == escape_single_quotes(x) + escape_single_quotes(y),
    decreases x.len(),
{
    if x.len() > 0 {
        lemma_escape_concat(x.drop_first(), y);
        assert((x + y).drop_first() =~= x.drop_first() + y);
        assert((x + y)[0] == x[0]);
    } else {
        assert(x + y =~= y);
    }
}

proof fn lemma_escape_unquoted(a: Seq<char>)
    requires
        forall|i: int| 0 <= i < a.len() ==> a[i] != '\'',
    ensures
        escape_single_quotes(a) == a,
    decreases a.len(),
{
    if a.len() > 0 {
        assert(forall|i: int| 0 <= i < a.drop_first().len() ==> a.drop_first()[i] == a[i + 1]);
        lemma_escape_unquoted(a.drop_first());
        assert(seq![a[0]] + a.drop_first() =~= a);
    }
}

/// A shell reads a quoted word back as the string it quotes.
proof fn lemma_read_quoted(s: Seq<char>, rest: Seq<char>, word: Seq<char>, open: bool)
    requires
        ends_word(rest),
    ensures
        shell_read(shell_quoted(s) + rest, word, open) == shell_read(rest, word + s, true),
    decreases s.len(),
{
    let q = seq!['\''];
    match first_index_of(s, '\'') {
        None => {
            assert forall|i: int| 0 <= i < s.len() implies s[i] != '\'' by {
                if s[i] == '\'' {
                    lemma_first_quote_absent(s, i);
                }
            }
            lemma_escape_unquoted(s);
            let t = q + s + q + rest;
            assert(shell_quoted(s) + rest =~= t);
            assert(t.drop_first() =~= s + q + rest);
            assert(forall|j: int| 0 <= j < s.len() ==> (s + q + rest)[j] == s[j]);
            lemma_first_index_found(s + q + rest, '\'', s.len() as int);
            assert(t.skip(s.len() as int + 2) =~= rest);
            assert(t.subrange(1, s.len() as int + 1) =~= s);
        },
        Some(j) => {
            lemma_first_index_bound(s, '\'');
            lemma_first_quote_before(s, j);
            let a = s.take(j);
            let c = s.skip(j + 1);
            assert(s =~= a + q + c);
            assert(s =~= a + (q + c));
            lemma_escape_concat(a, q + c);
            lemma_escape_concat(q, c);
            lemma_escape_unquoted(a);
            assert(escape_single_quotes(q) =~= seq!['\'', '\\', '\'', '\'']) by {
                assert(q.drop_first() =~= Seq::<char>::empty());
                assert(escape_single_quotes(Seq::<char>::empty()) =~= Seq::<char>::empty());
            }
            let tail = shell_quoted(c) + rest;
            let t = q + a + seq!['\'', '\\', '\''] + tail;
            assert(escape_single_quotes(s) =~= a + seq!['\'', '\\', '\'', '\''] + escape_single_quotes(c));
            assert(shell_quoted(s) + rest =~= t);
            let d = t.drop_first();
            assert(forall|i: int| 0 <= i < a.len() ==> d[i] == a[i]);
            assert(d[a.len() as int] == '\'');
            lemma_first_index_found(d, '\'', a.len() as int);
            let t2 = t.skip(a.len() as int + 2);
            assert(t2 =~= seq!['\\', '\''] + tail);
            assert(t.subrange(1, a.len() as int + 1) =~= a);
            assert(t2.skip(2) =~= tail);
            assert(t2[0] == '\\' && t2[1] == '\'' && t2.len() >= 2);
            assert(t[0] == '\'');
            assert(shell_read(t, word, open) == shell_read(t2, word + a, true));
            assert(shell_read(t2, word + a, true) == shell_read(tail, (word + a).push('\''), true));
            lemma_read_quoted(c, rest, (word + a).push('\''), true);
            assert((word + a).push('\'') + c =~= word + s);
        },
    }
}

proof fn lemma_first_quote_absent(s: Seq<char>, i: int)
    requires
        0 <= i < s.len(),
        s[i] == '\'',
    ensures
        first_index_of(s, '\'') is Some,
    decreases s.len(),
{
    if s[0] != '\'' {
        lemma_first_quote_absent(s.drop_first(), i - 1);
    }
}

proof fn lemma_first_quote_before(s: Seq<char>, j: int)
    requires
        first_index_of(s, '\'') == Some(j),
    ensures
        0 <= j < s.len(),
        s[j] == '\'',
        forall|i: int| 0 <= i < j ==> s[i] != '\'',
    decreases s.len(),
{
    lemma_first_index_bound(s, '\'');
    if s[0] != '\'' {
        lemma_first_quote_before(s.drop_first(), j - 1);
        assert forall|i: int| 0 <= i < j implies s[i] != '\'' by {
            if i > 0 {
                assert(s[i] == s.drop_first()[i - 1]);
            }
        }
    }
}

// ── Command lines ────────────────────────────────────────────────────────────

/// A shell reads a nonempty word of plain characters as it is.
proof fn lemma_read_plain(u: Seq<char>, rest: Seq<char>, word: Seq<char>, open: bool)
    requires
        u.len() > 0,
        forall|i: int| 0 <= i < u.len() ==> shell_plain(#[trigger] u[i]),
        ends_word(rest),
    ensures
        shell_read(u + rest, word, open) == shell_read(rest, word + u, true),
    decreases u.len(),
{
    let t = u + rest;
    assert(t[0] == u[0]);
    assert(t.drop_first() =~= u.drop_first() + rest);
    if u.len() == 1 {
        assert(u.drop_first() + rest =~= rest);
        assert(word.push(u[0]) =~= word + u);
    } else {
        assert(forall|i: int| 0 <= i < u.drop_first().len() ==> u.drop_first()[i] == u[i + 1]);
        lemma_read_plain(u.drop_first(), rest, word.push(u[0]), true);
        assert(word.push(u[0]) + u.drop_first() =~= word + u);
    }
}

/// Words joined by spaces: the first, a space, and the rest joined.
proof fn lemma_join_front(u: Seq<char>, us: Seq<Seq<char>>)
    requires
        us.len() > 0,
    ensures
        join_space(seq![u] + us) == u + seq![' '] + join_space(us),
    decreases us.len(),
{
    let w = seq![u] + us;
    assert(w.drop_last() =~= seq![u] + us.drop_last());
    assert(w.last() == us.last());
    if us.len() == 1 {
        assert(join_space(seq![u]) == u);
        assert(join_space(us) == us[0]);
    } else {
        lemma_join_front(u, us.drop_last());
    }
}

/// A shell reads quoted words joined by spaces back as the strings they quote, the
/// last one still open for what follows.
proof fn lemma_read_quoted_words(args: Seq<Seq<char>>, rest: Seq<char>)
    requires
        args.len() > 0,
        ends_word(rest),
    ensures
        shell_read(join_space(args.map_values(|a: Seq<char>| shell_quoted(a))) + rest, seq![], false)
            == match shell_read(rest, args.last(), true) {
            Some(ws) => Some(args.drop_last() + ws),
            None => None,
        },
    decreases args.len(),
{
    let qs = args.map_values(|a: Seq<char>| shell_quoted(a));
    let a0 = args[0];
    let q0 = shell_quoted(a0);
    if args.len() == 1 {
        assert(qs =~= seq![q0]);
        assert(join_space(qs) == q0);
        lemma_read_quoted(a0, rest, seq![], false);
        assert(Seq::<Seq<char>>::empty() + seq![a0] =~= seq![a0]);
        assert(args.drop_last() =~= Seq::<Seq<char>>::empty());
        assert(seq![] + a0 =~= a0);
        match shell_read(rest, a0, true) {
            Some(ws) => assert(args.drop_last() + ws =~= ws),
            None => {},
        }
    } else {
        let more = args.drop_first();
        let qm = more.map_values(|a: Seq<char>| shell_quoted(a));
        assert(qs =~= seq![q0] + qm);
        lemma_join_front(q0, qm);
        let jm = join_space(qm);
        assert(join_space(qs) + rest =~= q0 + (seq![' '] + (jm + rest)));
        lemma_read_quoted(a0, seq![' '] + (jm + rest), seq![], false);
        assert(seq![] + a0 =~= a0);
        assert((seq![' '] + (jm + rest)).drop_first() =~= jm + rest);
        lemma_read_quoted_words(more, rest);
        assert(more.last() == args.last());
        match shell_read(rest, args.last(), true) {
            Some(ws) => {
                assert(seq![a0] + (more.drop_last() + ws) =~= args.drop_last() + ws);
            },
            None => {},
        }
    }
}

/// The command line built for running tmux through a shell reads back, word for word,
/// as `tmux -L shush` followed by the arguments, whatever quotes, backslashes or spaces
/// they hold.
pub proof fn lemma_shell_command_reads_back(args: Seq<Seq<char>>)
    ensures
        shell_words(tmux_shell_command(args)) == Some(seq!["tmux"@, "-L"@, tmux_socket()] + args),
{
    reveal_strlit("tmux");
    reveal_strlit("-L");
    reveal_strlit("shush");
    let t = "tmux"@;
    let l = "-L"@;
    let all = seq![tmux_socket()] + args;
    let qa = all.map_values(|a: Seq<char>| shell_quoted(a));
    let w = seq![t, l, shell_quoted(tmux_socket())] + args.map_values(|a: Seq<char>| shell_quoted(a));
    assert(w =~= seq![t] + (seq![l] + qa));
    lemma_join_front(l, qa);
    lemma_join_front(t, seq![l] + qa);
    let jq = join_space(qa);
    let sp = seq![' '];
    assert(tmux_shell_command(args) =~= t + (sp + (l + (sp + jq))));
    lemma_read_plain(t, sp + (l + (sp + jq)), seq![], false);
    assert((sp + (l + (sp + jq))).drop_first() =~= l + (sp + jq));
    lemma_read_plain(l, sp + jq, seq![], false);
    assert((sp + jq).drop_first() =~= jq);
    assert(jq + Seq::<char>::empty() =~= jq);
    lemma_read_quoted_words(all, Seq::<char>::empty());
    assert(seq![] + t =~= t);
    assert(seq![] + l =~= l);
    assert(all.drop_last() + seq![all.last()] =~= all);
    assert(seq![t] + (seq![l] + all) =~= seq!["tmux"@, "-L"@, tmux_socket()] + args);
}

/// A shell reads a quoted string back as that one word, whatever it holds.
pub proof fn lemma_quoted_word_reads_back(s: Seq<char>)
    ensures
        shell_words(shell_quoted(s)) == Some(seq![s]),
{
    lemma_read_quoted(s, Seq::empty(), Seq::empty(), false);
    assert(shell_quoted(s) + Seq::<char>::empty() =~= shell_quoted(s));
    assert(Seq::<char>::empty() + s =~= s);
}

} // verus!
