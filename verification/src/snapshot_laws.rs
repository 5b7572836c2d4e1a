use vstd::prelude::*;

use crate::bytes::{find_sub, lemma_find_sub, occurs_at};
use crate::fe_master::{
    count_line_breaks, echo_end_prefix, echo_end_suffix, echo_middle, echo_prefix,
    extract_wrapped, lemma_count_line_breaks_bound, sanitized,
};
use crate::marker::all_hex;
use crate::sequence_filter_laws::lemma_find_extend;

verus! {

/// What the shell echoes when it is handed a command wrapped with the nonce whose hex
/// digits are `hex`.
pub open spec fn wrapped_echo(command: Seq<u8>, hex: Seq<u8>) -> Seq<u8> {
    echo_prefix() + hex + echo_middle() + command + echo_end_prefix() + hex + echo_end_suffix()
}

/// Bytes that are all `\r` or `\n`.
pub open spec fn all_line_breaks(s: Seq<u8>) -> bool {
    forall|i: int| 0 <= i < s.len() ==> s[i] == 0x0d || s[i] == 0x0a
}

proof fn lemma_found_first(p: Seq<u8>, rest: Seq<u8>)
    ensures
        find_sub(p + rest, p) == Some(0int),
{
    lemma_find_sub(p + rest, p);
    assert((p + rest).subrange(0, p.len() as int) =~= p);
    assert(occurs_at(p + rest, p, 0));
}

pub(crate) proof fn lemma_count_breaks(s: Seq<u8>, k: int, n: int)
    requires
        0 <= k,
        0 <= n,
        k + n <= s.len(),
        forall|i: int| k <= i < k + n ==> s[i] == 0x0d || s[i] == 0x0a,
        k + n == s.len() || !(s[k + n] == 0x0d || s[k + n] == 0x0a),
    ensures
        count_line_breaks(s, k) == n,
    decreases n,
{
    if n > 0 {
        lemma_count_breaks(s, k + 1, n - 1);
    }
}

/// Reading the echo at the start of `y`: the command, the bytes the echo spans with
/// its line breaks, and those line breaks.
pub proof fn lemma_extract_echo(command: Seq<u8>, hex: Seq<u8>, breaks: Seq<u8>, after: Seq<u8>)
    requires
        hex.len() == 64,
        all_hex(hex),
        find_sub(command + echo_end_prefix(), echo_end_prefix()) == Some(command.len() as int),
        all_line_breaks(breaks),
        after.len() == 0 || !(after[0] == 0x0d || after[0] == 0x0a),
    ensures
        extract_wrapped(wrapped_echo(command, hex) + breaks + after) == Some(
            (command, (wrapped_echo(command, hex).len() + breaks.len()) as int, breaks),
        ),
{
    let e = wrapped_echo(command, hex);
    let y = e + breaks + after;
    let cl = command.len() as int;
    assert(y.subrange(19, 83) =~= hex);
    let tail = command + echo_end_prefix() + hex + echo_end_suffix() + breaks + after;
    assert(y.skip(83) =~= echo_middle() + tail);
    lemma_found_first(echo_middle(), tail);
    let rest = hex + echo_end_suffix() + breaks + after;
    assert(y.skip(92) =~= (command + echo_end_prefix()) + rest);
    lemma_find_extend(command + echo_end_prefix(), rest, echo_end_prefix());
    let epi = 92 + cl;
    let ens = epi + 36;
    let ene = ens + 64;
    let se = ene + 46;
    assert(y.subrange(ens, ene) =~= hex);
    assert(y.subrange(ene, se) =~= echo_end_suffix());
    assert(y.subrange(92, epi) =~= command);
    assert(se == e.len());
    lemma_count_breaks(y, se, breaks.len() as int);
    assert(y.subrange(se, se + breaks.len()) =~= breaks);
}

/// In a captured screen, the echo of a wrapped command is shown as the command itself,
/// followed by the line breaks after the echo: when no echo starts earlier, and the
/// command does not hold the text that closes the echo.
pub proof fn lemma_echo_shows_as_command(
    before: Seq<u8>,
    command: Seq<u8>,
    hex: Seq<u8>,
    breaks: Seq<u8>,
    after: Seq<u8>,
)
    requires
        find_sub(before + echo_prefix(), echo_prefix()) == Some(before.len() as int),
        hex.len() == 64,
        all_hex(hex),
        find_sub(command + echo_end_prefix(), echo_end_prefix()) == Some(command.len() as int),
        all_line_breaks(breaks),
        after.len() == 0 || !(after[0] == 0x0d || after[0] == 0x0a),
    ensures
        sanitized(before + wrapped_echo(command, hex) + breaks + after) == before + command + breaks
            + sanitized(after),
{
    let e = wrapped_echo(command, hex);
    let b = before + e + breaks + after;
    let bl = before.len() as int;
    let rest = hex + echo_middle() + command + echo_end_prefix() + hex + echo_end_suffix() + breaks
        + after;
    assert(b =~= (before + echo_prefix()) + rest);
    lemma_find_extend(before + echo_prefix(), rest, echo_prefix());
    assert(b.skip(bl) =~= e + breaks + after);
    lemma_extract_echo(command, hex, breaks, after);
    let consumed = e.len() + breaks.len();
    assert(b.skip(bl + consumed) =~= after);
    assert(b.take(bl) =~= before);
}


/// The first occurrence of `p` in `y`, when it ends within `y.take(m)`, is the first in
/// `y.take(m)` too.
proof fn lemma_found_in_head(y: Seq<u8>, p: Seq<u8>, m: int, q: int)
    requires
        find_sub(y, p) == Some(q),
        q + p.len() <= m <= y.len(),
    ensures
        find_sub(y.take(m), p) == Some(q),
{
    let h = y.take(m);
    lemma_find_sub(y, p);
    lemma_find_sub(h, p);
    assert(h.subrange(q, q + p.len()) =~= y.subrange(q, q + p.len()));
    assert(occurs_at(h, p, q));
    assert(h + y.skip(m) =~= y);
    lemma_find_extend(h, y.skip(m), p);
}

/// The run of line breaks from `k` is made of line breaks and stops at a byte that is
/// not one.
proof fn lemma_line_break_run(s: Seq<u8>, k: int)
    requires
        0 <= k <= s.len(),
    ensures
        k + count_line_breaks(s, k) <= s.len(),
        all_line_breaks(s.subrange(k, k + count_line_breaks(s, k))),
        k + count_line_breaks(s, k) == s.len() || !(s[k + count_line_breaks(s, k)] == 0x0d
            || s[k + count_line_breaks(s, k)] == 0x0a),
    decreases s.len() - k,
{
    lemma_count_line_breaks_bound(s, k);
    if k < s.len() && (s[k] == 0x0d || s[k] == 0x0a) {
        lemma_line_break_run(s, k + 1);
        let e = k + count_line_breaks(s, k);
        assert forall|i: int| 0 <= i < e - k implies s.subrange(k, e)[i] == 0x0d || s.subrange(k, e)[i]
            == 0x0a by {
            if i > 0 {
                assert(s.subrange(k, e)[i] == s.subrange(k + 1, e)[i - 1]);
            }
        }
    }
}

/// What an echo that `extract_wrapped` reads looks like: after `echo_prefix()` come 64
/// hex digits, any bytes without `echo_middle()` in them, `echo_middle()`, the command
/// (without `echo_end_prefix()` in it), `echo_end_prefix()`, the same 64 hex digits,
/// `echo_end_suffix()` and the line breaks reported, and the bytes it spans end there,
/// before any further line break.
pub proof fn lemma_extract_wrapped_shape(y: Seq<u8>)
    requires
        y.len() >= 19,
        y.take(19) == echo_prefix(),
    ensures
        extract_wrapped(y) matches Some(r) ==> exists|hex: Seq<u8>, gap: Seq<u8>|
            {
                &&& hex.len() == 64
                &&& all_hex(hex)
                &&& find_sub(gap + echo_middle(), echo_middle()) == Some(gap.len() as int)
                &&& find_sub(r.0 + echo_end_prefix(), echo_end_prefix()) == Some(r.0.len() as int)
                &&& all_line_breaks(r.2)
                &&& y.take(r.1) == echo_prefix() + hex + gap + echo_middle() + r.0 + echo_end_prefix()
                    + hex + echo_end_suffix() + r.2
                &&& (r.1 == y.len() || !(y[r.1] == 0x0d || y[r.1] == 0x0a))
            },
{
    if extract_wrapped(y) is Some {
        let r = extract_wrapped(y)->0;
        let hex = y.subrange(19, 83);
        let a = y.skip(83);
        let mi = find_sub(a, echo_middle())->0;
        lemma_find_sub(a, echo_middle());
        let gap = a.take(mi);
        lemma_found_in_head(a, echo_middle(), mi + 9, mi);
        assert(a.take(mi + 9) =~= gap + echo_middle());
        let cs = 83 + mi + 9;
        let c = y.skip(cs);
        let ei = find_sub(c, echo_end_prefix())->0;
        lemma_find_sub(c, echo_end_prefix());
        lemma_found_in_head(c, echo_end_prefix(), ei + 36, ei);
        assert(c.take(ei + 36) =~= r.0 + echo_end_prefix());
        let epi = cs + ei;
        let ene = epi + 36 + 64;
        let se = ene + 46;
        lemma_line_break_run(y, se);
        assert(y.take(r.1) =~= echo_prefix() + hex + gap + echo_middle() + r.0 + echo_end_prefix()
            + hex + echo_end_suffix() + r.2) by {
            assert(y.subrange(epi + 36, ene) == hex);
            assert(y.subrange(83, 83 + mi) =~= gap);
            assert(y.subrange(83 + mi, cs) =~= echo_middle());
            assert(y.subrange(epi, epi + 36) =~= echo_end_prefix());
        }
    }
}


/// A captured screen in which no echo of a wrapped command starts is kept as it is.
pub proof fn lemma_plain_screen_kept(b: Seq<u8>)
    requires
        find_sub(b, echo_prefix()) is None,
    ensures
        sanitized(b) == b,
{
}

} // verus!
