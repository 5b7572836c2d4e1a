use vstd::prelude::*;

use crate::text::{chars_of, is_whitespace, is_whitespace_char, push_str, string_from_chars};
use crate::tmux_event::{
    first_index_of, lemma_first_index_absent, lemma_first_index_bound, lemma_first_index_found,
};

verus! {

/// The control-mode command that types the newline-free `piece` literally into the
/// active pane: `send-keys -l <piece>` and a newline; nothing for an empty piece.
pub open spec fn typed_line(piece: Seq<char>) -> Seq<char> {
    if piece.len() == 0 {
        seq![]
    } else {
        "send-keys -l "@ + piece + "\n"@
    }
}

/// The control-mode command that sends the Enter key.
pub open spec fn enter_line() -> Seq<char> {
    "send-keys Enter\n"@
}

/// The control-mode commands that type the lines of `text` into the active pane: each
/// non-empty line typed literally, and each newline sent as the Enter key, so that no
/// part of the text reaches tmux as a command line of its own.
pub open spec fn typed_lines(text: Seq<char>) -> Seq<char>
    decreases text.len(),
{
    match first_index_of(text, '\n') {
        None => typed_line(text),
        Some(k) => {
            proof {
                lemma_first_index_bound(text, '\n');
            }
            typed_line(text.take(k)) + enter_line() + typed_lines(text.skip(k + 1))
        },
    }
}

/// The control-mode commands that type `text` into the active pane: for text without a
/// newline, the single line `send-keys -l <text>` (the empty text included); otherwise
/// its lines as `typed_lines` sends them.
pub open spec fn send_keys_line(text: Seq<char>) -> Seq<char> {
    if text.len() == 0 {
        "send-keys -l \n"@
    } else {
        typed_lines(text)
    }
}

fn push_typed(v: &mut Vec<char>, piece: &[char])
    ensures
        final(v)@ == old(v)@ + typed_line(piece@),
{
    if piece.len() > 0 {
        push_str(v, "send-keys -l ");
        crate::text::push_chars(v, piece);
        push_str(v, "\n");
    } else {
        assert(old(v)@ + typed_line(piece@) =~= old(v)@);
    }
}

/// The control-mode commands that type `text` into the active pane: `send-keys -l <text>`
/// and a newline for text without a newline; otherwise `send-keys -l` for each
/// non-empty line of it and `send-keys Enter` for each newline in it.
pub fn send_keys_command(text: &str) -> (s: String)
    ensures
        s@ == send_keys_line(text@),
{
    let cs = chars_of(text);
    let n = cs.len();
    let mut v: Vec<char> = Vec::new();
    if n == 0 {
        push_str(&mut v, "send-keys -l \n");
        return string_from_chars(v.as_slice());
    }
    let mut start: usize = 0;
    let mut i: usize = 0;
    assert(cs@.skip(0) =~= cs@);
    while i < n
        invariant
            start <= i <= n,
            n == cs@.len(),
            cs@ == text@,
            send_keys_line(text@) == v@ + typed_lines(cs@.skip(start as int)),
            forall|j: int| start <= j < i ==> cs@[j] != '\n',
        decreases n - i,
    {
        if cs[i] == '\n' {
            let ghost rest = cs@.skip(start as int);
            proof {
                assert forall|j: int| 0 <= j < i - start implies rest[j] != '\n' by {
                    assert(rest[j] == cs@[start + j]);
                }
                lemma_first_index_found(rest, '\n', i - start);
                assert(rest.take(i - start) =~= cs@.subrange(start as int, i as int));
                assert(rest.skip(i - start + 1) =~= cs@.skip(i + 1));
            }
            let ghost before = v@;
            push_typed(&mut v, &cs.as_slice()[start..i]);
            push_str(&mut v, "send-keys Enter\n");
            assert(v@ =~= before + typed_line(rest.take(i - start)) + enter_line());
            start = i + 1;
        }
        i += 1;
    }
    let ghost rest = cs@.skip(start as int);
    proof {
        assert forall|j: int| 0 <= j < rest.len() implies rest[j] != '\n' by {
            assert(rest[j] == cs@[start + j]);
        }
        lemma_first_index_absent(rest, '\n');
    }
    assert(cs@.subrange(start as int, n as int) =~= rest);
    push_typed(&mut v, &cs.as_slice()[start..n]);
    string_from_chars(v.as_slice())
}

/// The control-mode command that sends the Enter key to the active pane.
pub fn enter_key_command() -> (s: String)
    ensures
        s@ == enter_line(),
{
    let mut v: Vec<char> = Vec::new();
    push_str(&mut v, "send-keys Enter\n");
    string_from_chars(v.as_slice())
}

/// Text made only of whole `send-keys` command lines: empty, or starting with
/// `send-keys `, ending with a newline, and with `send-keys ` after every newline but
/// the last.
pub open spec fn only_send_keys(s: Seq<char>) -> bool {
    &&& s.len() == 0 || (s.len() >= 10 && s.take(10) == "send-keys "@ && s.last() == '\n')
    &&& forall|i: int|
        0 <= i < s.len() - 1 && #[trigger] s[i] == '\n' ==> i + 11 <= s.len() && s.subrange(
            i + 1,
            i + 11,
        ) == "send-keys "@
}

proof fn lemma_line_only_send_keys(head: Seq<char>, piece: Seq<char>)
    requires
        head == "send-keys -l "@ || head == "send-keys Enter"@,
        head == "send-keys Enter"@ ==> piece.len() == 0,
        forall|i: int| 0 <= i < piece.len() ==> piece[i] != '\n',
    ensures
        only_send_keys(head + piece + "\n"@),
{
    reveal_strlit("send-keys -l ");
    reveal_strlit("send-keys Enter");
    reveal_strlit("send-keys ");
    reveal_strlit("\n");
    let l = head + piece + "\n"@;
    assert(l.take(10) =~= "send-keys "@);
    assert forall|i: int| 0 <= i < l.len() - 1 implies l[i] != '\n' by {
        if i >= head.len() {
            assert(l[i] == piece[i - head.len()]);
        }
    }
}

proof fn lemma_concat_only_send_keys(a: Seq<char>, b: Seq<char>)
    requires
        only_send_keys(a),
        only_send_keys(b),
    ensures
        only_send_keys(a + b),
{
    reveal_strlit("send-keys ");
    let c = a + b;
    if a.len() == 0 {
        assert(c =~= b);
    } else if b.len() == 0 {
        assert(c =~= a);
    } else {
        assert(c.take(10) =~= a.take(10));
        assert forall|i: int| 0 <= i < c.len() - 1 && #[trigger] c[i] == '\n' implies i + 11
            <= c.len() && c.subrange(i + 1, i + 11) == "send-keys "@ by {
            if i < a.len() - 1 {
                assert(a[i] == '\n');
                assert(c.subrange(i + 1, i + 11) =~= a.subrange(i + 1, i + 11));
            } else if i == a.len() - 1 {
                assert(c.subrange(i + 1, i + 11) =~= b.take(10));
            } else {
                assert(b[i - a.len()] == '\n');
                assert(c.subrange(i + 1, i + 11) =~= b.subrange(i - a.len() + 1, i - a.len() + 11));
            }
        }
    }
}

/// Typing any text writes `send-keys` command lines only: a newline in the text is
/// sent as the Enter key and never starts a command line of its own.
pub proof fn lemma_typing_writes_send_keys_only(text: Seq<char>)
    ensures
        only_send_keys(send_keys_line(text)),
{
    reveal_strlit("send-keys -l \n");
    reveal_strlit("send-keys -l ");
    reveal_strlit("\n");
    if text.len() == 0 {
        assert("send-keys -l \n"@ =~= "send-keys -l "@ + text + "\n"@);
        lemma_line_only_send_keys("send-keys -l "@, text);
    } else {
        lemma_typed_lines_send_keys_only(text);
    }
}

proof fn lemma_typed_lines_send_keys_only(text: Seq<char>)
    ensures
        only_send_keys(typed_lines(text)),
    decreases text.len(),
{
    reveal_strlit("send-keys -l ");
    reveal_strlit("send-keys Enter\n");
    reveal_strlit("send-keys Enter");
    reveal_strlit("\n");
    assert("send-keys Enter\n"@ =~= "send-keys Enter"@ + Seq::<char>::empty() + "\n"@);
    lemma_line_only_send_keys("send-keys Enter"@, Seq::empty());
    lemma_first_index_bound(text, '\n');
    match first_index_of(text, '\n') {
        None => {
            if text.len() > 0 {
                assert forall|i: int| 0 <= i < text.len() implies text[i] != '\n' by {
                    if text[i] == '\n' {
                        lemma_first_index_some(text, i);
                    }
                }
                lemma_line_only_send_keys("send-keys -l "@, text);
            }
        },
        Some(k) => {
            let p = text.take(k);
            lemma_first_index_prefix(text, k);
            if p.len() > 0 {
                lemma_line_only_send_keys("send-keys -l "@, p);
            }
            lemma_typed_lines_send_keys_only(text.skip(k + 1));
            lemma_concat_only_send_keys(typed_line(p), enter_line());
            lemma_concat_only_send_keys(typed_line(p) + enter_line(), typed_lines(text.skip(k + 1)));
        },
    }
}

proof fn lemma_first_index_some(s: Seq<char>, i: int)
    requires
        0 <= i < s.len(),
        s[i] == '\n',
    ensures
        first_index_of(s, '\n') is Some,
    decreases s.len(),
{
    if s[0] != '\n' {
        lemma_first_index_some(s.drop_first(), i - 1);
    }
}

proof fn lemma_first_index_prefix(s: Seq<char>, k: int)
    requires
        first_index_of(s, '\n') == Some(k),
    ensures
        forall|j: int| 0 <= j < k ==> s[j] != '\n',
    decreases s.len(),
{
    lemma_first_index_bound(s, '\n');
    if s[0] != '\n' {
        lemma_first_index_prefix(s.drop_first(), k - 1);
        assert forall|j: int| 0 <= j < k implies s[j] != '\n' by {
            if j > 0 {
                assert(s[j] == s.drop_first()[j - 1]);
            }
        }
    }
}

/// How many characters `s` keeps once its trailing whitespace is removed.
pub open spec fn trimmed_len(s: Seq<char>) -> nat
    decreases s.len(),
{
    if s.len() == 0 {
        0
    } else if is_whitespace(s.last()) {
        trimmed_len(s.drop_last())
    } else {
        s.len()
    }
}

/// `s` without its trailing whitespace (`str::trim_end`).
pub open spec fn trim_end(s: Seq<char>) -> Seq<char> {
    s.take(trimmed_len(s) as int)
}

proof fn lemma_trimmed_len_bound(s: Seq<char>)
    ensures
        trimmed_len(s) <= s.len(),
    decreases s.len(),
{
    if s.len() > 0 && is_whitespace(s.last()) {
        lemma_trimmed_len_bound(s.drop_last());
    }
}

/// A line read from the control-mode stream: `None` at the end of the stream (nothing
/// read), otherwise the line without its trailing whitespace (the `\r\n` included).
pub fn line_from_read(raw: &str) -> (r: Option<String>)
    ensures
        match r {
            Some(line) => raw@.len() > 0 && line@ == trim_end(raw@),
            None => raw@.len() == 0,
        },
{
    let cs = chars_of(raw);
    if cs.len() == 0 {
        return None;
    }
    let mut n = cs.len();
    assert(cs@.take(n as int) =~= cs@);
    while n > 0 && is_whitespace_char(cs[n - 1])
        invariant
            n <= cs@.len(),
            cs@ == raw@,
            trimmed_len(cs@) == trimmed_len(cs@.take(n as int)),
        decreases n,
    {
        assert(cs@.take(n as int).drop_last() =~= cs@.take(n - 1));
        n -= 1;
    }
    proof {
        assert(cs@.take(cs@.len() as int) =~= cs@);
        if n > 0 {
            assert(cs@.take(n as int).last() == cs@[n - 1]);
        }
        lemma_trimmed_len_bound(cs@);
    }
    let kept = &cs.as_slice()[0..n];
    assert(kept@ =~= cs@.take(n as int));
    Some(string_from_chars(kept))
}

} // verus!
