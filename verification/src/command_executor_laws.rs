use vstd::prelude::*;

use crate::bytes::{find_sub, lemma_find_sub, occurs_at};
use crate::command_executor::{
    command_output, completion_exit_code, end_marker_prefix, end_marker_with_code, latin1,
    parse_i32,
};
use crate::fe_master::apc_term;
use crate::marker::{ascii_bytes, begin_tag, hex_lower, is_hex_digit, marker_bytes};
use crate::marker_laws::lemma_hex_lower_all_hex;
use crate::sequence_filter_laws::{esc_led, lemma_no_overlap, lemma_occurs_extend};
use crate::text::{
    decimal, digits_value, is_ascii_digit, lemma_decimal, lemma_parse_decimal, signed_decimal,
};

verus! {

// ── Exit codes in writing ────────────────────────────────────────────────────

/// A character of a written exit code: a sign or a decimal digit.
pub open spec fn is_code_char(c: char) -> bool {
    c == '-' || is_ascii_digit(c)
}

proof fn lemma_signed_decimal_chars(n: int)
    ensures
        forall|i: int|
            0 <= i < signed_decimal(n).len() ==> is_code_char(#[trigger] signed_decimal(n)[i]),
{
    if n < 0 {
        let d = decimal((-n) as nat);
        lemma_decimal((-n) as nat);
        assert forall|i: int| 0 <= i < signed_decimal(n).len() implies is_code_char(
            #[trigger] signed_decimal(n)[i],
        ) by {
            if i > 0 {
                assert(signed_decimal(n)[i] == d[i - 1]);
            }
        }
    } else {
        lemma_decimal(n as nat);
    }
}

proof fn lemma_code_chars_ascii(s: Seq<char>)
    requires
        forall|i: int| 0 <= i < s.len() ==> is_code_char(#[trigger] s[i]),
    ensures
        latin1(ascii_bytes(s)) == s,
        forall|i: int| 0 <= i < s.len() ==> #[trigger] ascii_bytes(s)[i] != 0x1bu8,
{
    assert forall|i: int| 0 <= i < s.len() implies (s[i] as u8) as char == s[i] && (s[i] as u8)
        != 0x1bu8 by {
        assert(is_code_char(s[i]));
    }
    assert(latin1(ascii_bytes(s)) =~= s);
}

/// A written exit code reads back as the same number.
proof fn lemma_parse_signed_decimal(c: i32)
    ensures
        parse_i32(signed_decimal(c as int)) == Some(c),
{
    if c < 0 {
        let d = decimal((-(c as int)) as nat);
        lemma_decimal((-(c as int)) as nat);
        assert(signed_decimal(c as int).drop_first() =~= d);
        assert(digits_value(d) == -(c as int));
    } else {
        lemma_decimal(c as nat);
        lemma_parse_decimal(c as nat, 0x7fff_ffff);
    }
}

// ── Reading the exit code off the stream ─────────────────────────────────────

proof fn lemma_end_prefix_esc_led(nonce: Seq<u8>)
    ensures
        esc_led(end_marker_prefix(nonce)),
{
    let p = end_marker_prefix(nonce);
    let h = ascii_bytes(hex_lower(nonce));
    lemma_hex_lower_all_hex(nonce);
    assert forall|t: int| 1 <= t < p.len() implies p[t] != 0x1bu8 by {
        if 6 <= t < 6 + h.len() {
            assert(p[t] == h[t - 6]);
            assert(is_hex_digit(h[t - 6]));
        }
    }
}

/// An escape-led pattern that does not occur in `before` is first found where it is put
/// right after it.
proof fn lemma_found_after(before: Seq<u8>, p: Seq<u8>, tail: Seq<u8>)
    requires
        esc_led(p),
        find_sub(before, p) is None,
    ensures
        find_sub(before + (p + tail), p) == Some(before.len() as int),
{
    let raw = before + (p + tail);
    let bl = before.len() as int;
    lemma_find_sub(before, p);
    lemma_find_sub(raw, p);
    assert(raw.subrange(bl, bl + p.len()) =~= p);
    assert(occurs_at(raw, p, bl));
    assert forall|j: int| 0 <= j < bl implies !occurs_at(raw, p, j) by {
        if j + p.len() <= bl {
            lemma_occurs_extend(before, p + tail, p, j);
        } else if occurs_at(raw, p, j) {
            lemma_no_overlap(raw, p, p, j, bl);
        }
    }
}

/// The terminator right after bytes without an escape is the first one.
proof fn lemma_terminated(digits: Seq<u8>, after: Seq<u8>)
    requires
        forall|i: int| 0 <= i < digits.len() ==> #[trigger] digits[i] != 0x1bu8,
    ensures
        find_sub(digits + (apc_term() + after), apc_term()) == Some(digits.len() as int),
{
    let t = apc_term();
    let rest = digits + (t + after);
    let dl = digits.len() as int;
    lemma_find_sub(rest, t);
    assert(t[0] == 0x1bu8);
    assert(rest.subrange(dl, dl + 2) =~= t);
    assert forall|j: int| 0 <= j < dl implies !occurs_at(rest, t, j) by {
        let w = rest.subrange(j, j + 2);
        assert(w[0] == rest[j]);
        assert(rest[j] == digits[j]);
    }
    assert(occurs_at(rest, t, dl));
    match find_sub(rest, t) {
        Some(q) => {
            if q < dl {
                assert(!occurs_at(rest, t, q));
            }
            if q > dl {
                assert(!occurs_at(rest, t, dl));
            }
        },
        None => {
            assert(!occurs_at(rest, t, dl));
        },
    }
}

/// The exit status that a command's end marker carries is what the completion watch
/// reads off the stream, once the marker has arrived and no earlier end marker of the
/// same nonce has.
pub proof fn lemma_exit_code_reads_back(before: Seq<u8>, nonce: Seq<u8>, code: i32, after: Seq<u8>)
    requires
        find_sub(before, end_marker_prefix(nonce)) is None,
    ensures
        completion_exit_code(before + end_marker_with_code(nonce, code) + after, nonce) == Some(code),
{
    let p = end_marker_prefix(nonce);
    let sd = signed_decimal(code as int);
    let digits = ascii_bytes(sd);
    let m = end_marker_with_code(nonce, code);
    let raw = before + m + after;
    let tail = digits + (apc_term() + after);
    assert(raw =~= before + (p + tail));
    lemma_end_prefix_esc_led(nonce);
    lemma_found_after(before, p, tail);
    assert(raw.skip(before.len() + p.len() as int) =~= tail);
    lemma_signed_decimal_chars(code as int);
    lemma_code_chars_ascii(sd);
    lemma_terminated(digits, after);
    assert(tail.take(digits.len() as int) =~= digits);
    lemma_parse_signed_decimal(code);
}

// ── Reading a command's output off the stream ────────────────────────────────

/// A complete APC sequence: `ESC _`, then bytes without an escape, then `ESC \`.
pub open spec fn apc_shaped(p: Seq<u8>) -> bool {
    &&& p.len() >= 4
    &&& p[0] == 0x1bu8
    &&& p[1] == 0x5fu8
    &&& p[p.len() - 2] == 0x1bu8
    &&& p[p.len() - 1] == 0x5cu8
    &&& forall|t: int| 1 <= t < p.len() - 2 ==> p[t] != 0x1bu8
}

/// Two occurrences of an APC sequence cannot overlap.
proof fn lemma_apc_no_overlap(s: Seq<u8>, p: Seq<u8>, k: int, i: int)
    requires
        apc_shaped(p),
        occurs_at(s, p, k),
        occurs_at(s, p, i),
    ensures
        !(k < i < k + p.len()),
{
    if k < i < k + p.len() {
        assert(s.subrange(k, k + p.len())[i - k] == s[i]);
        assert(s.subrange(i, i + p.len())[0] == s[i]);
        assert(s.subrange(i, i + p.len())[1] == s[i + 1]);
        if i - k == p.len() - 2 {
            assert(s.subrange(k, k + p.len())[i - k + 1] == s[i + 1]);
        }
    }
}

/// An APC sequence that does not occur in `before` is first found where it is put
/// right after it.
proof fn lemma_apc_found_after(before: Seq<u8>, p: Seq<u8>, tail: Seq<u8>)
    requires
        apc_shaped(p),
        find_sub(before, p) is None,
    ensures
        find_sub(before + (p + tail), p) == Some(before.len() as int),
{
    let raw = before + (p + tail);
    let bl = before.len() as int;
    lemma_find_sub(before, p);
    lemma_find_sub(raw, p);
    assert(raw.subrange(bl, bl + p.len()) =~= p);
    assert(occurs_at(raw, p, bl));
    assert forall|j: int| 0 <= j < bl implies !occurs_at(raw, p, j) by {
        if j + p.len() <= bl {
            lemma_occurs_extend(before, p + tail, p, j);
        } else if occurs_at(raw, p, j) {
            lemma_apc_no_overlap(raw, p, j, bl);
        }
    }
}

proof fn lemma_markers_apc_shaped(nonce: Seq<u8>, code: i32)
    ensures
        apc_shaped(marker_bytes(begin_tag(), nonce)),
        apc_shaped(end_marker_with_code(nonce, code)),
{
    let h = ascii_bytes(hex_lower(nonce));
    lemma_hex_lower_all_hex(nonce);
    let sp = marker_bytes(begin_tag(), nonce);
    assert forall|t: int| 1 <= t < sp.len() - 2 implies sp[t] != 0x1bu8 by {
        if 8 <= t < 8 + h.len() {
            assert(sp[t] == h[t - 8]);
            assert(is_hex_digit(h[t - 8]));
        }
    }
    let sd = signed_decimal(code as int);
    let d = ascii_bytes(sd);
    lemma_signed_decimal_chars(code as int);
    lemma_code_chars_ascii(sd);
    let e = end_marker_with_code(nonce, code);
    assert forall|t: int| 1 <= t < e.len() - 2 implies e[t] != 0x1bu8 by {
        if 6 <= t < 6 + h.len() {
            assert(e[t] == h[t - 6]);
            assert(is_hex_digit(h[t - 6]));
        }
        if 7 + h.len() <= t < 7 + h.len() + d.len() {
            assert(e[t] == d[t - 7 - h.len()]);
        }
    }
}

/// What a command prints between its start and end markers is what is read back as its
/// output, when neither marker occurs before its place in the stream.
pub proof fn lemma_output_reads_back(
    before: Seq<u8>,
    nonce: Seq<u8>,
    out: Seq<u8>,
    code: i32,
    after: Seq<u8>,
)
    requires
        find_sub(before, marker_bytes(begin_tag(), nonce)) is None,
        find_sub(before + marker_bytes(begin_tag(), nonce) + out, end_marker_with_code(nonce, code))
            is None,
    ensures
        command_output(
            before + marker_bytes(begin_tag(), nonce) + out + end_marker_with_code(nonce, code) + after,
            nonce,
            code,
        ) == out,
{
    let sm = marker_bytes(begin_tag(), nonce);
    let em = end_marker_with_code(nonce, code);
    let raw = before + sm + out + em + after;
    lemma_markers_apc_shaped(nonce, code);
    assert(raw =~= before + (sm + (out + em + after)));
    lemma_apc_found_after(before, sm, out + em + after);
    assert(raw =~= (before + sm + out) + (em + after));
    lemma_apc_found_after(before + sm + out, em, after);
    let a = before.len() as int;
    let b = (before + sm + out).len() as int;
    assert(raw.subrange(a + sm.len(), b) =~= out);
}

} // verus!
