use vstd::prelude::*;

use crate::text::{
    all_digits, decimal, digit_char, digit_value, is_whitespace, join_space, lemma_decimal,
    lemma_digit_char, lemma_parse_decimal, lemma_word_len_bound, split_ws, word_len,
};
use crate::tmux_event::{
    decode_octal, event_line, lemma_first_index_found, octal_byte,
    octal_escape_byte, octal_escaped, parse_event, split_pane, strip_prefix, TmuxEventView,
};

verus! {

// ── Words ────────────────────────────────────────────────────────────────────

/// A nonempty run without whitespace.
pub open spec fn is_word(w: Seq<char>) -> bool {
    w.len() > 0 && forall|i: int| 0 <= i < w.len() ==> !is_whitespace(#[trigger] w[i])
}

proof fn lemma_word_len_of(w: Seq<char>, r: Seq<char>)
    requires
        forall|i: int| 0 <= i < w.len() ==> !is_whitespace(#[trigger] w[i]),
        r.len() == 0 || is_whitespace(r[0]),
    ensures
        word_len(w + r) == w.len(),
    decreases w.len(),
{
    if w.len() > 0 {
        assert((w + r).drop_first() =~= w.drop_first() + r);
        assert(forall|i: int| 0 <= i < w.drop_first().len() ==> w.drop_first()[i] == w[i + 1]);
        lemma_word_len_of(w.drop_first(), r);
    } else {
        assert(w + r =~= r);
    }
}

/// A word followed by nothing or by whitespace is split off whole.
proof fn lemma_split_word(w: Seq<char>, r: Seq<char>)
    requires
        is_word(w),
        r.len() == 0 || is_whitespace(r[0]),
    ensures
        split_ws(w + r) == seq![w] + split_ws(r),
{
    let s = w + r;
    lemma_word_len_of(w, r);
    lemma_word_len_bound(s);
    assert(s[0] == w[0]);
    assert(s.take(w.len() as int) =~= w);
    assert(s.skip(w.len() as int) =~= r);
}

/// Leading whitespace is skipped.
proof fn lemma_split_space(r: Seq<char>)
    ensures
        split_ws(seq![' '] + r) == split_ws(r),
{
    assert((seq![' '] + r).drop_first() =~= r);
}

/// Words separated by single spaces are split back into those words.
proof fn lemma_split_three(a: Seq<char>, b: Seq<char>, c: Seq<char>, tail: Seq<char>)
    requires
        is_word(a),
        is_word(b),
        is_word(c),
        tail.len() == 0 || is_whitespace(tail[0]),
    ensures
        split_ws(a + seq![' '] + b + seq![' '] + c + tail) == seq![a, b, c] + split_ws(tail),
{
    let sp = seq![' '];
    let r3 = c + tail;
    let r2 = b + (sp + r3);
    let r1 = a + (sp + r2);
    assert(a + sp + b + sp + c + tail =~= r1);
    lemma_split_word(a, sp + r2);
    lemma_split_space(r2);
    lemma_split_word(b, sp + r3);
    lemma_split_space(r3);
    lemma_split_word(c, tail);
    assert(seq![a] + (seq![b] + (seq![c] + split_ws(tail))) =~= seq![a, b, c] + split_ws(tail));
}

// ── Escaped output data ─────────────────────────────────────────────────────

proof fn lemma_octal_escaped_cons(b: u8, d: Seq<u8>)
    ensures
        octal_escaped(seq![b] + d) == octal_escape_byte(b) + octal_escaped(d),
    decreases d.len(),
{
    if d.len() == 0 {
        assert(seq![b] + d =~= seq![b]);
        assert(seq![b].drop_last() =~= Seq::<u8>::empty());
        assert(octal_escaped(Seq::<u8>::empty()) == Seq::<char>::empty());
        assert(octal_escape_byte(b) + octal_escaped(d) =~= octal_escape_byte(b));
    } else {
        lemma_octal_escaped_cons(b, d.drop_last());
        assert((seq![b] + d).drop_last() =~= seq![b] + d.drop_last());
        assert((seq![b] + d).last() == d.last());
        assert(octal_escape_byte(b) + octal_escaped(d) =~= octal_escape_byte(b) + octal_escaped(
            d.drop_last(),
        ) + octal_escape_byte(d.last()));
    }
}

proof fn lemma_decode_escape_byte(b: u8, rest: Seq<char>)
    ensures
        decode_octal(octal_escape_byte(b) + rest) == seq![b] + decode_octal(rest),
{
    let s = octal_escape_byte(b) + rest;
    let d0 = (b / 64) as nat;
    let d1 = ((b / 8) % 8) as nat;
    let d2 = (b % 8) as nat;
    lemma_digit_char(d0);
    lemma_digit_char(d1);
    lemma_digit_char(d2);
    let o = s.subrange(1, 4);
    assert(o =~= seq![digit_char(d0), digit_char(d1), digit_char(d2)]);
    assert(all_digits(o));
    assert(d0 * 64 + d1 * 8 + d2 == b);
    assert(octal_byte(o) == b);
    assert(s.skip(4) =~= rest);
    assert(s[0] == '\\');
}

/// Decoding the escaped form of bytes gives the bytes back.
proof fn lemma_decode_escaped(data: Seq<u8>)
    ensures
        decode_octal(octal_escaped(data)) == data,
    decreases data.len(),
{
    if data.len() == 0 {
        assert(decode_octal(octal_escaped(data)) =~= data);
    } else {
        let b = data[0];
        let d = data.drop_first();
        assert(data =~= seq![b] + d);
        lemma_octal_escaped_cons(b, d);
        lemma_decode_escape_byte(b, octal_escaped(d));
        lemma_decode_escaped(d);
        assert(seq![b] + d =~= data);
    }
}

// ── Prefixes ─────────────────────────────────────────────────────────────────

proof fn lemma_strip_own(q: Seq<char>, r: Seq<char>)
    ensures
        strip_prefix(q + r, q) == Some(r),
{
    assert((q + r).take(q.len() as int) =~= q);
    assert((q + r).skip(q.len() as int) =~= r);
}

proof fn lemma_strip_differs(q: Seq<char>, r: Seq<char>, p: Seq<char>, k: int)
    requires
        0 <= k < q.len(),
        k < p.len(),
        q[k] != p[k],
    ensures
        strip_prefix(q + r, p) is None,
{
    if p.len() <= (q + r).len() && (q + r).take(p.len() as int) == p {
        assert((q + r).take(p.len() as int)[k] == (q + r)[k]);
    }
}

// ── The law ──────────────────────────────────────────────────────────────────

/// Events whose written line parses back to them: all but error messages whose words
/// are not separated by single spaces (or that start or end with whitespace), pane ids
/// that hold a space, session names that are empty or hold whitespace, and
/// unrecognised lines that parse as a known event.
pub open spec fn reads_back(e: TmuxEventView) -> bool {
    match e {
        TmuxEventView::Error(_, _, _, msg) => msg == join_space(split_ws(msg)),
        TmuxEventView::Output { pane, data: _ } => forall|i: int|
            0 <= i < pane.len() ==> pane[i] != ' ',
        TmuxEventView::SessionChanged(name, _) => is_word(name),
        TmuxEventView::Unknown(raw) => parse_event(raw) is Unknown,
        _ => true,
    }
}

proof fn lemma_begin(t: u64, w: u64, p: u32)
    ensures
        parse_event(event_line(TmuxEventView::Begin(t, w, p))) == TmuxEventView::Begin(t, w, p),
{
    reveal_strlit("%begin ");
    let e = TmuxEventView::Begin(t, w, p);
    let sp = seq![' '];
    let (dt, dw, dp) = (decimal(t as nat), decimal(w as nat), decimal(p as nat));
    let body = dt + sp + dw + sp + dp;
    lemma_decimal(t as nat);
    lemma_decimal(w as nat);
    lemma_decimal(p as nat);
    assert(event_line(e) =~= "%begin "@ + body);
    lemma_strip_own("%begin "@, body);
    assert(body + Seq::<char>::empty() =~= body);
    lemma_split_three(dt, dw, dp, Seq::<char>::empty());
    lemma_parse_decimal(t as nat, u64::MAX as nat);
    lemma_parse_decimal(w as nat, u64::MAX as nat);
    lemma_parse_decimal(p as nat, u32::MAX as nat);
}

proof fn lemma_end(t: u64, w: u64, p: u32)
    ensures
        parse_event(event_line(TmuxEventView::End(t, w, p))) == TmuxEventView::End(t, w, p),
{
    reveal_strlit("%begin ");
    reveal_strlit("%end ");
    let e = TmuxEventView::End(t, w, p);
    let sp = seq![' '];
    let (dt, dw, dp) = (decimal(t as nat), decimal(w as nat), decimal(p as nat));
    let body = dt + sp + dw + sp + dp;
    lemma_decimal(t as nat);
    lemma_decimal(w as nat);
    lemma_decimal(p as nat);
    assert(event_line(e) =~= "%end "@ + body);
    lemma_strip_differs("%end "@, body, "%begin "@, 1);
    lemma_strip_own("%end "@, body);
    assert(body + Seq::<char>::empty() =~= body);
    lemma_split_three(dt, dw, dp, Seq::<char>::empty());
    lemma_parse_decimal(t as nat, u64::MAX as nat);
    lemma_parse_decimal(w as nat, u64::MAX as nat);
    lemma_parse_decimal(p as nat, u32::MAX as nat);
}

/// An error line reads back with the words of its message joined by single spaces.
pub proof fn lemma_error_message_reads_back_normalized(t: u64, w: u64, p: u32, msg: Seq<char>)
    ensures
        parse_event(event_line(TmuxEventView::Error(t, w, p, msg))) == TmuxEventView::Error(
            t,
            w,
            p,
            join_space(split_ws(msg)),
        ),
{
    reveal_strlit("%begin ");
    reveal_strlit("%end ");
    reveal_strlit("%error ");
    let e = TmuxEventView::Error(t, w, p, msg);
    let sp = seq![' '];
    let (dt, dw, dp) = (decimal(t as nat), decimal(w as nat), decimal(p as nat));
    let tail = sp + msg;
    let body = dt + sp + dw + sp + dp + tail;
    lemma_decimal(t as nat);
    lemma_decimal(w as nat);
    lemma_decimal(p as nat);
    assert(event_line(e) =~= "%error "@ + body);
    lemma_strip_differs("%error "@, body, "%begin "@, 1);
    lemma_strip_differs("%error "@, body, "%end "@, 2);
    lemma_strip_own("%error "@, body);
    lemma_split_three(dt, dw, dp, tail);
    lemma_split_space(msg);
    let parts = split_ws(body);
    assert(parts.skip(3) =~= split_ws(msg));
    lemma_parse_decimal(t as nat, u64::MAX as nat);
    lemma_parse_decimal(w as nat, u64::MAX as nat);
    lemma_parse_decimal(p as nat, u32::MAX as nat);
}

proof fn lemma_output(pane: Seq<char>, data: Seq<u8>)
    requires
        forall|i: int| 0 <= i < pane.len() ==> pane[i] != ' ',
    ensures
        parse_event(event_line(TmuxEventView::Output { pane, data })) == (TmuxEventView::Output {
            pane,
            data,
        }),
{
    reveal_strlit("%begin ");
    reveal_strlit("%end ");
    reveal_strlit("%error ");
    reveal_strlit("%output ");
    reveal_strlit("%output %");
    reveal_strlit("%");
    let e = TmuxEventView::Output { pane, data };
    let esc = octal_escaped(data);
    let x = pane + seq![' '] + esc;
    assert("%output %"@ =~= "%output "@ + "%"@);
    assert(event_line(e) =~= "%output %"@ + x);
    assert(event_line(e) =~= "%output "@ + ("%"@ + x));
    lemma_strip_differs("%output %"@, x, "%begin "@, 1);
    lemma_strip_differs("%output %"@, x, "%end "@, 1);
    lemma_strip_differs("%output %"@, x, "%error "@, 1);
    lemma_strip_own("%output "@, "%"@ + x);
    lemma_strip_own("%"@, x);
    assert(x[pane.len() as int] == ' ');
    assert(forall|j: int| 0 <= j < pane.len() ==> x[j] == pane[j]);
    lemma_first_index_found(x, ' ', pane.len() as int);
    assert(split_pane(x).0 =~= pane);
    assert(split_pane(x).1 =~= esc);
    lemma_decode_escaped(data);
}

proof fn lemma_window_add(name: Seq<char>)
    ensures
        parse_event(event_line(TmuxEventView::WindowAdd(name))) == TmuxEventView::WindowAdd(name),
{
    reveal_strlit("%begin ");
    reveal_strlit("%end ");
    reveal_strlit("%error ");
    reveal_strlit("%output ");
    reveal_strlit("%window-add ");
    let q = "%window-add "@;
    assert(event_line(TmuxEventView::WindowAdd(name)) =~= q + name);
    lemma_strip_differs(q, name, "%begin "@, 1);
    lemma_strip_differs(q, name, "%end "@, 1);
    lemma_strip_differs(q, name, "%error "@, 1);
    lemma_strip_differs(q, name, "%output "@, 1);
    lemma_strip_own(q, name);
}

proof fn lemma_session_changed(name: Seq<char>, id: u64)
    requires
        is_word(name),
    ensures
        parse_event(event_line(TmuxEventView::SessionChanged(name, id)))
            == TmuxEventView::SessionChanged(name, id),
{
    reveal_strlit("%begin ");
    reveal_strlit("%end ");
    reveal_strlit("%error ");
    reveal_strlit("%output ");
    reveal_strlit("%window-add ");
    reveal_strlit("%session-changed ");
    let q = "%session-changed "@;
    let sp = seq![' '];
    let did = decimal(id as nat);
    let body = name + (sp + did);
    lemma_decimal(id as nat);
    assert(event_line(TmuxEventView::SessionChanged(name, id)) =~= q + body);
    lemma_strip_differs(q, body, "%begin "@, 1);
    lemma_strip_differs(q, body, "%end "@, 1);
    lemma_strip_differs(q, body, "%error "@, 1);
    lemma_strip_differs(q, body, "%output "@, 1);
    lemma_strip_differs(q, body, "%window-add "@, 1);
    lemma_strip_own(q, body);
    lemma_split_word(name, sp + did);
    lemma_split_space(did);
    assert(did + Seq::<char>::empty() =~= did);
    lemma_split_word(did, Seq::<char>::empty());
    lemma_parse_decimal(id as nat, u64::MAX as nat);
    assert(split_ws(body) =~= seq![name, did]);
}

/// Writing an event as a control-mode line and parsing that line gives the event back.
pub proof fn lemma_parse_reads_back_written_line(e: TmuxEventView)
    requires
        reads_back(e),
    ensures
        parse_event(event_line(e)) == e,
{
    match e {
        TmuxEventView::Begin(t, w, p) => lemma_begin(t, w, p),
        TmuxEventView::End(t, w, p) => lemma_end(t, w, p),
        TmuxEventView::Error(t, w, p, msg) => lemma_error_message_reads_back_normalized(t, w, p, msg),
        TmuxEventView::Output { pane, data } => lemma_output(pane, data),
        TmuxEventView::WindowAdd(name) => lemma_window_add(name),
        TmuxEventView::SessionChanged(name, id) => lemma_session_changed(name, id),
        TmuxEventView::Unknown(raw) => {},
    }
}

} // verus!
