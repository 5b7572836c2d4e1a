use vstd::prelude::*;

use crate::bytes::{find_sub, lemma_find_sub, occurs_at};
use crate::fe_master::{
    count_line_breaks, echo_prefix, echo_run, echo_suffix, lemma_count_line_breaks_bound,
    sequence_run, EchoFilterState,
};
use crate::snapshot_laws::{all_line_breaks, lemma_count_breaks};
use crate::sequence_filter_laws::{
    concat_chunks, lemma_concat_chunks_prefix, lemma_find_extend, lemma_find_extend_none,
    lemma_find_shift,
    lemma_occurs_extend, lemma_sequence_chunking, sequence_total,
};

verus! {

/// What `finish` flushes from an echo filter in state `st`: nothing inside an echo,
/// otherwise the pending bytes.
pub open spec fn echo_flush(st: EchoFilterState) -> Seq<u8> {
    if st.stripping {
        Seq::empty()
    } else {
        st.pending
    }
}

/// Everything the echo filter emits from state `st` when the stream ends there.
pub open spec fn echo_total(st: EchoFilterState) -> Seq<u8> {
    echo_run(st).0 + echo_flush(echo_run(st).1)
}

/// `st` with `b` appended to its pending bytes.
pub open spec fn with_more(st: EchoFilterState, b: Seq<u8>) -> EchoFilterState {
    EchoFilterState { pending: st.pending + b, ..st }
}

/// Whether the echo filter, run on `st`, ends by dropping an echo, with no replacement
/// queued, together with line breaks that reach the end of its pending bytes: line
/// breaks that arrive next are then emitted, where in one piece with the earlier bytes
/// they would have been dropped too.
pub open spec fn ends_in_dropped_breaks(st: EchoFilterState) -> bool
    decreases st.pending.len(),
{
    if st.stripping {
        match find_sub(st.pending, echo_suffix()) {
            Some(index) => {
                proof {
                    lemma_find_sub(st.pending, echo_suffix());
                    lemma_count_line_breaks_bound(st.pending, index + 20);
                }
                let de = index + 20 + count_line_breaks(st.pending, index + 20);
                if de == st.pending.len() {
                    st.replacement is None
                } else {
                    ends_in_dropped_breaks(
                        EchoFilterState { pending: st.pending.skip(de), stripping: false, replacement: None },
                    )
                }
            },
            None => false,
        }
    } else {
        match find_sub(st.pending, echo_prefix()) {
            Some(index) => {
                proof {
                    lemma_find_sub(st.pending, echo_prefix());
                }
                ends_in_dropped_breaks(
                    EchoFilterState {
                        pending: st.pending.skip(index + 19),
                        stripping: true,
                        replacement: st.replacement,
                    },
                )
            },
            None => false,
        }
    }
}

/// Line breaks that run on to the end of `x` run on into what follows.
proof fn lemma_line_breaks_extend(x: Seq<u8>, b: Seq<u8>, k: int)
    requires
        0 <= k <= x.len(),
    ensures
        k + count_line_breaks(x, k) < x.len() ==> count_line_breaks(x + b, k) == count_line_breaks(x, k),
        k + count_line_breaks(x, k) == x.len() ==> count_line_breaks(x + b, k) == count_line_breaks(x, k)
            + count_line_breaks(b, 0),
    decreases x.len() - k,
{
    lemma_count_line_breaks_bound(x, k);
    if k < x.len() {
        assert((x + b)[k] == x[k]);
        if x[k] == 0x0d || x[k] == 0x0a {
            lemma_line_breaks_extend(x, b, k + 1);
        }
    } else {
        lemma_line_breaks_shift(x, b, 0);
    }
}

proof fn lemma_line_breaks_shift(x: Seq<u8>, b: Seq<u8>, j: int)
    requires
        0 <= j <= b.len(),
    ensures
        count_line_breaks(x + b, x.len() + j) == count_line_breaks(b, j),
    decreases b.len() - j,
{
    if j < b.len() {
        assert((x + b)[x.len() + j] == b[j]);
        lemma_line_breaks_shift(x, b, j + 1);
    }
}

/// A head in which no echo starts passes through the echo filter whole, outside an echo.
proof fn lemma_echo_free_head(h: Seq<u8>, z: Seq<u8>, repl: Option<Seq<u8>>)
    requires
        forall|j: int| 0 <= j < h.len() ==> !occurs_at(h + z, echo_prefix(), j),
    ensures
        echo_total(EchoFilterState { pending: h + z, stripping: false, replacement: repl }) == h
            + echo_total(EchoFilterState { pending: z, stripping: false, replacement: repl }),
{
    let y = h + z;
    let hl = h.len() as int;
    let sy = EchoFilterState { pending: y, stripping: false, replacement: repl };
    let sz = EchoFilterState { pending: z, stripping: false, replacement: repl };
    lemma_find_shift(h, z, echo_prefix());
    lemma_find_sub(z, echo_prefix());
    match find_sub(z, echo_prefix()) {
        Some(i) => {
            assert(y.skip(i + hl + 19) =~= z.skip(i + 19));
            assert(y.take(i + hl) =~= h + z.take(i));
            assert(echo_total(sy) =~= h + echo_total(sz));
        },
        None => {
            assert(echo_total(sy) =~= y);
            assert(echo_total(sz) =~= z);
        },
    }
}

/// The state after an echo is dropped from the pending bytes `x` at `index`, with the
/// line breaks after it.
pub open spec fn after_echo(x: Seq<u8>, index: int) -> EchoFilterState {
    EchoFilterState {
        pending: x.skip(index + 20 + count_line_breaks(x, index + 20)),
        stripping: false,
        replacement: None,
    }
}

/// What dropping an echo emits: the replacement, if one is queued, and the line breaks
/// after the echo.
pub open spec fn echo_emitted(st: EchoFilterState, index: int) -> Seq<u8> {
    match st.replacement {
        Some(r) => r + st.pending.subrange(index + 20, index + 20 + count_line_breaks(st.pending, index + 20)),
        None => Seq::empty(),
    }
}

proof fn lemma_echo_suffix_step(st: EchoFilterState, b: Seq<u8>, index: int)
    requires
        st.stripping,
        find_sub(st.pending, echo_suffix()) == Some(index),
    ensures
        0 <= index,
        index + 20 + count_line_breaks(st.pending, index + 20) <= st.pending.len(),
        echo_run(st).0 == echo_emitted(st, index) + echo_run(after_echo(st.pending, index)).0,
        echo_run(st).1 == echo_run(after_echo(st.pending, index)).1,
        find_sub(st.pending + b, echo_suffix()) == Some(index),
{
    lemma_find_sub(st.pending, echo_suffix());
    lemma_count_line_breaks_bound(st.pending, index + 20);
    lemma_find_extend(st.pending, b, echo_suffix());
}

/// An echo whose line breaks end inside `x` is dropped the same way once more bytes
/// follow.
proof fn lemma_echo_drop_inside(st: EchoFilterState, b: Seq<u8>, index: int)
    requires
        st.stripping,
        find_sub(st.pending, echo_suffix()) == Some(index),
        index + 20 + count_line_breaks(st.pending, index + 20) < st.pending.len(),
    ensures
        echo_total(with_more(st, b)) == echo_emitted(st, index) + echo_total(
            with_more(after_echo(st.pending, index), b),
        ),
{
    let x = st.pending;
    lemma_echo_suffix_step(st, b, index);
    let se = index + 20;
    lemma_line_breaks_extend(x, b, se);
    let de = se + count_line_breaks(x, se);
    assert((x + b).skip(de) =~= x.skip(de) + b);
    assert((x + b).subrange(se, de) =~= x.subrange(se, de));
    lemma_echo_suffix_step(with_more(st, b), Seq::empty(), index);
    assert(after_echo(x + b, index) == with_more(after_echo(x, index), b));
}

/// An echo whose line breaks reach the end of `x`: with a replacement queued, or with
/// no line breaks next, what follows is emitted as it would have been in one piece.
proof fn lemma_echo_drop_at_end(st: EchoFilterState, b: Seq<u8>, index: int)
    requires
        st.stripping,
        find_sub(st.pending, echo_suffix()) == Some(index),
        index + 20 + count_line_breaks(st.pending, index + 20) == st.pending.len(),
        st.replacement is Some || count_line_breaks(b, 0) == 0,
    ensures
        echo_run(st).0 + echo_total(with_more(echo_run(st).1, b)) == echo_total(with_more(st, b)),
{
    let x = st.pending;
    let n = x.len() as int;
    lemma_echo_suffix_step(st, b, index);
    let se = index + 20;
    lemma_line_breaks_extend(x, b, se);
    let de = n;
    let m = count_line_breaks(b, 0) as int;
    lemma_count_line_breaks_bound(b, 0);
    lemma_echo_suffix_step(with_more(st, b), Seq::empty(), index);
    assert((x + b).skip(de + m) =~= b.skip(m));
    assert(x.skip(de) =~= Seq::<u8>::empty());
    assert(x.skip(de) + b =~= b);
    let after = EchoFilterState { pending: b.skip(m), stripping: false, replacement: None };
    assert(after_echo(x + b, index) == after);
    assert(echo_run(after_echo(x, index)) == (Seq::<u8>::empty(), after_echo(x, index)));
    assert forall|j: int| 0 <= j < m implies !occurs_at(b, echo_prefix(), j) by {
        lemma_line_breaks_at(b, 0, j);
        if occurs_at(b, echo_prefix(), j) {
            assert(b.subrange(j, j + 19)[0] == b[j]);
        }
    }
    assert(b.take(m) + b.skip(m) =~= b);
    lemma_echo_free_head(b.take(m), b.skip(m), None);
    assert((x + b).subrange(se, de + m) =~= x.subrange(se, de) + b.take(m));
    if m == 0 {
        assert(b.take(m) =~= Seq::<u8>::empty());
    }
}

/// An echo that starts in `x` is found at the same place once more bytes follow.
proof fn lemma_echo_prefix_step(st: EchoFilterState, b: Seq<u8>, index: int)
    requires
        !st.stripping,
        find_sub(st.pending, echo_prefix()) == Some(index),
    ensures
        0 <= index,
        index + 19 <= st.pending.len(),
        echo_run(st).0 == st.pending.take(index) + echo_run(
            EchoFilterState { pending: st.pending.skip(index + 19), stripping: true, replacement: st.replacement },
        ).0,
        echo_run(st).1 == echo_run(
            EchoFilterState { pending: st.pending.skip(index + 19), stripping: true, replacement: st.replacement },
        ).1,
        echo_total(with_more(st, b)) == st.pending.take(index) + echo_total(
            with_more(
                EchoFilterState { pending: st.pending.skip(index + 19), stripping: true, replacement: st.replacement },
                b,
            ),
        ),
{
    let x = st.pending;
    lemma_find_sub(x, echo_prefix());
    lemma_find_extend(x, b, echo_prefix());
    assert((x + b).skip(index + 19) =~= x.skip(index + 19) + b);
    assert((x + b).take(index) =~= x.take(index));
}

/// With no echo start in `x`, what the filter emits at once and what it keeps add up.
proof fn lemma_echo_plain(st: EchoFilterState, b: Seq<u8>)
    requires
        !st.stripping,
        find_sub(st.pending, echo_prefix()) is None,
    ensures
        echo_run(st).0 + echo_total(with_more(echo_run(st).1, b)) == echo_total(with_more(st, b)),
{
    let x = st.pending;
    let n = x.len() as int;
    lemma_find_sub(x, echo_prefix());
    if n > 18 {
        let h = x.take(n - 18);
        let z = x.skip(n - 18) + b;
        assert(h + z =~= x + b);
        assert forall|j: int| 0 <= j < h.len() implies !occurs_at(h + z, echo_prefix(), j) by {
            lemma_occurs_extend(x, b, echo_prefix(), j);
        }
        lemma_echo_free_head(h, z, st.replacement);
    }
}

/// How the stream is cut into chunks does not change what the echo filter emits, except
/// where a chunk ends inside line breaks that it drops after an echo with no replacement
/// queued and the next chunk starts with more line breaks: running it on `st`, then on
/// the state it is left in with `b` added, and flushing at the end, emits what running
/// it on `st` with `b` added and flushing emits.
pub proof fn lemma_echo_chunking(st: EchoFilterState, b: Seq<u8>)
    requires
        !(ends_in_dropped_breaks(st) && b.len() > 0 && (b[0] == 0x0d || b[0] == 0x0a)),
    ensures
        echo_run(st).0 + echo_total(with_more(echo_run(st).1, b)) == echo_total(with_more(st, b)),
    decreases st.pending.len(),
{
    let x = st.pending;
    if st.stripping {
        lemma_find_sub(x, echo_suffix());
        match find_sub(x, echo_suffix()) {
            Some(index) => {
                lemma_echo_suffix_step(st, b, index);
                let de = index + 20 + count_line_breaks(x, index + 20);
                if de < x.len() {
                    let next = after_echo(x, index);
                    lemma_echo_chunking(next, b);
                    lemma_echo_drop_inside(st, b, index);
                    assert(echo_run(st).0 + echo_total(with_more(echo_run(st).1, b)) =~= echo_emitted(st, index)
                        + (echo_run(next).0 + echo_total(with_more(echo_run(next).1, b))));
                } else {
                    if b.len() > 0 {
                        assert(count_line_breaks(b, 0) == 0 <==> !(b[0] == 0x0d || b[0] == 0x0a));
                    }
                    lemma_echo_drop_at_end(st, b, index);
                }
            },
            None => {},
        }
    } else {
        lemma_find_sub(x, echo_prefix());
        match find_sub(x, echo_prefix()) {
            Some(index) => {
                let next = EchoFilterState { pending: x.skip(index + 19), stripping: true, replacement: st.replacement };
                lemma_echo_prefix_step(st, b, index);
                lemma_echo_chunking(next, b);
                assert(echo_run(st).0 + echo_total(with_more(echo_run(st).1, b)) =~= x.take(index)
                    + (echo_run(next).0 + echo_total(with_more(echo_run(next).1, b))));
            },
            None => lemma_echo_plain(st, b),
        }
    }
}

/// The bytes of a run of line breaks are line breaks.
proof fn lemma_line_breaks_at(s: Seq<u8>, k: int, j: int)
    requires
        0 <= k,
        k <= j < k + count_line_breaks(s, k),
    ensures
        s[j] == 0x0d || s[j] == 0x0a,
    decreases j - k,
{
    if j > k {
        lemma_line_breaks_at(s, k + 1, j);
    }
}

// ── Both filters ─────────────────────────────────────────────────────────────

/// What the terminal filter (the echo filter, then the marker filter) emits from echo
/// state `es` and marker bytes `ms` when the stream `x` arrives in one chunk and ends.
pub open spec fn terminal_total(es: EchoFilterState, ms: Seq<u8>, x: Seq<u8>) -> Seq<u8> {
    let e = echo_run(with_more(es, x));
    let m = sequence_run(ms + e.0);
    m.0 + sequence_total(m.1 + echo_flush(e.1))
}

/// What the terminal filter emits from echo state `es` and marker bytes `ms` when the
/// stream arrives as `a`, then `b`, and ends.
pub open spec fn terminal_total_split(es: EchoFilterState, ms: Seq<u8>, a: Seq<u8>, b: Seq<u8>) -> Seq<u8> {
    let e1 = echo_run(with_more(es, a));
    let m1 = sequence_run(ms + e1.0);
    let e2 = echo_run(with_more(e1.1, b));
    let m2 = sequence_run(m1.1 + e2.0);
    m1.0 + m2.0 + sequence_total(m2.1 + echo_flush(e2.1))
}

/// Viewers see the same output however the terminal stream is cut into chunks, except
/// where the echo filter drops line breaks after an echo with no replacement queued up
/// to the end of the first chunk and the second chunk starts with more line breaks.
pub proof fn lemma_terminal_chunking(es: EchoFilterState, ms: Seq<u8>, a: Seq<u8>, b: Seq<u8>)
    requires
        !(ends_in_dropped_breaks(with_more(es, a)) && b.len() > 0 && (b[0] == 0x0d || b[0]
            == 0x0a)),
    ensures
        terminal_total_split(es, ms, a, b) == terminal_total(es, ms, a + b),
{
    let e1 = echo_run(with_more(es, a));
    let m1 = sequence_run(ms + e1.0);
    let e2 = echo_run(with_more(e1.1, b));
    let m2 = sequence_run(m1.1 + e2.0);
    let f2 = echo_flush(e2.1);
    lemma_sequence_chunking(m1.1 + e2.0, f2);
    assert(m1.1 + e2.0 + f2 =~= m1.1 + (e2.0 + f2));
    lemma_sequence_chunking(ms + e1.0, e2.0 + f2);
    assert(ms + e1.0 + (e2.0 + f2) =~= ms + (e1.0 + (e2.0 + f2)));
    lemma_echo_chunking(with_more(es, a), b);
    assert(with_more(with_more(es, a), b) == with_more(es, a + b)) by {
        assert(es.pending + a + b =~= es.pending + (a + b));
    }
    let e = echo_run(with_more(es, a + b));
    let m = sequence_run(ms + e.0);
    lemma_sequence_chunking(ms + e.0, echo_flush(e.1));
    assert(ms + e.0 + echo_flush(e.1) =~= ms + (e.0 + echo_flush(e.1)));
    assert(m1.0 + m2.0 + sequence_total(m2.1 + f2) =~= m1.0 + (m2.0 + sequence_total(m2.1 + f2)));
}

// ── Pass-through and replacement ─────────────────────────────────────────────

/// Terminal output in which no echo of a wrapped command starts passes through the
/// echo filter unchanged.
pub proof fn lemma_echo_filter_passes_plain_output(x: Seq<u8>, repl: Option<Seq<u8>>)
    requires
        find_sub(x, echo_prefix()) is None,
    ensures
        echo_total(EchoFilterState { pending: x, stripping: false, replacement: repl }) == x,
{
    let e = Seq::<u8>::empty();
    lemma_find_sub(x, echo_prefix());
    assert(x + e =~= x);
    lemma_echo_free_head(x, e, repl);
    lemma_find_sub(e, echo_prefix());
    let se = EchoFilterState { pending: e, stripping: false, replacement: repl };
    assert(echo_run(se) == (Seq::<u8>::empty(), se));
    assert(echo_total(se) =~= e);
}

/// The echo of a wrapped command (`echo_prefix()` and then `body`, which ends with the
/// first `echo_suffix()` in it) is shown as the text queued to replace it, followed by
/// the line breaks after the echo; what follows passes through as usual, with the
/// queue emptied. This holds when no echo starts before it.
pub proof fn lemma_echo_replaced(
    before: Seq<u8>,
    body: Seq<u8>,
    r: Seq<u8>,
    breaks: Seq<u8>,
    after: Seq<u8>,
)
    requires
        find_sub(before + echo_prefix(), echo_prefix()) == Some(before.len() as int),
        body.len() >= 20,
        find_sub(body, echo_suffix()) == Some(body.len() - 20),
        all_line_breaks(breaks),
        after.len() == 0 || !(after[0] == 0x0d || after[0] == 0x0a),
    ensures
        echo_total(
            EchoFilterState {
                pending: before + echo_prefix() + body + breaks + after,
                stripping: false,
                replacement: Some(r),
            },
        ) == before + r + breaks + echo_total(
            EchoFilterState { pending: after, stripping: false, replacement: None },
        ),
{
    let p = echo_prefix();
    let y = before + p + body + breaks + after;
    let bl = before.len() as int;
    let z = body + breaks + after;
    let tail = body + breaks + after;
    assert(y =~= (before + p) + tail);
    lemma_find_extend(before + p, tail, p);
    assert(y.take(bl) =~= before);
    assert(y.skip(bl + 19) =~= z);
    let st1 = EchoFilterState { pending: z, stripping: true, replacement: Some(r) };
    let st0 = EchoFilterState { pending: y, stripping: false, replacement: Some(r) };
    assert(echo_total(st0) =~= before + echo_total(st1));
    assert(z =~= body + (breaks + after));
    lemma_find_extend(body, breaks + after, echo_suffix());
    let se = body.len() as int;
    lemma_count_breaks(z, se, breaks.len() as int);
    let de = se + breaks.len();
    assert(z.subrange(se, de) =~= breaks);
    assert(z.skip(de) =~= after);
    let next = EchoFilterState { pending: after, stripping: false, replacement: None };
    assert(echo_total(st1) =~= r + breaks + echo_total(next));
}


/// With no replacement queued, the echo of a wrapped command is dropped together with
/// the line breaks after it, and what follows passes through as usual.
pub proof fn lemma_echo_dropped(before: Seq<u8>, body: Seq<u8>, breaks: Seq<u8>, after: Seq<u8>)
    requires
        find_sub(before + echo_prefix(), echo_prefix()) == Some(before.len() as int),
        body.len() >= 20,
        find_sub(body, echo_suffix()) == Some(body.len() - 20),
        all_line_breaks(breaks),
        after.len() == 0 || !(after[0] == 0x0d || after[0] == 0x0a),
    ensures
        echo_total(
            EchoFilterState {
                pending: before + echo_prefix() + body + breaks + after,
                stripping: false,
                replacement: None,
            },
        ) == before + echo_total(EchoFilterState { pending: after, stripping: false, replacement: None }),
{
    let p = echo_prefix();
    let y = before + p + body + breaks + after;
    let bl = before.len() as int;
    let z = body + breaks + after;
    assert(y =~= (before + p) + z);
    lemma_find_extend(before + p, z, p);
    assert(y.take(bl) =~= before);
    assert(y.skip(bl + 19) =~= z);
    let st1 = EchoFilterState { pending: z, stripping: true, replacement: None };
    let st0 = EchoFilterState { pending: y, stripping: false, replacement: None };
    assert(echo_total(st0) =~= before + echo_total(st1));
    assert(z =~= body + (breaks + after));
    lemma_find_extend(body, breaks + after, echo_suffix());
    let se = body.len() as int;
    lemma_count_breaks(z, se, breaks.len() as int);
    let de = se + breaks.len();
    assert(z.skip(de) =~= after);
    let next = EchoFilterState { pending: after, stripping: false, replacement: None };
    assert(echo_total(st1) =~= echo_total(next));
}

// ── Any number of calls ──────────────────────────────────────────────────────

/// Whether `outs` and `states` record an echo filter in state `states[0]` that is fed
/// `chunks` by one `filter_chunk` call each: call `i` returns `outs[i]` and leaves the
/// filter in state `states[i + 1]`, as that method's contract says.
pub open spec fn echo_calls(
    chunks: Seq<Seq<u8>>,
    outs: Seq<Seq<u8>>,
    states: Seq<EchoFilterState>,
) -> bool {
    &&& states.len() == chunks.len() + 1
    &&& outs.len() == chunks.len()
    &&& forall|i: int|
        0 <= i < chunks.len() ==> (#[trigger] outs[i], states[i + 1]) == echo_run(
            with_more(states[i], chunks[i]),
        )
}

/// A pattern absent from a stream is absent from every stretch of it.
pub proof fn lemma_absent_in_stretch(x: Seq<u8>, t: Seq<u8>, y: Seq<u8>, p: Seq<u8>)
    requires
        find_sub(x + t + y, p) is None,
    ensures
        find_sub(t, p) is None,
{
    lemma_find_sub(x + t + y, p);
    lemma_find_sub(t, p);
    if find_sub(t, p) is Some {
        let j = find_sub(t, p)->0;
        assert((x + t + y).subrange(x.len() + j, x.len() + j + p.len()) =~= t.subrange(j, j + p.len()));
        assert(occurs_at(x + t + y, p, x.len() + j));
    }
}

proof fn lemma_plain_calls_upto(
    chunks: Seq<Seq<u8>>,
    outs: Seq<Seq<u8>>,
    states: Seq<EchoFilterState>,
    repl: Option<Seq<u8>>,
    k: int,
)
    requires
        echo_calls(chunks, outs, states),
        states[0] == (EchoFilterState { pending: Seq::empty(), stripping: false, replacement: repl }),
        find_sub(concat_chunks(chunks), echo_prefix()) is None,
        0 <= k <= chunks.len(),
    ensures
        concat_chunks(outs.take(k)) + states[k].pending == concat_chunks(chunks.take(k)),
        states[k].pending.len() <= 18,
        !states[k].stripping,
        states[k].replacement == repl,
    decreases k,
{
    if k == 0 {
        assert(outs.take(0) =~= Seq::<Seq<u8>>::empty());
        assert(chunks.take(0) =~= Seq::<Seq<u8>>::empty());
        assert(concat_chunks(outs.take(0)) + states[0].pending =~= concat_chunks(chunks.take(0)));
    } else {
        let i = k - 1;
        lemma_plain_calls_upto(chunks, outs, states, repl, i);
        lemma_concat_chunks_prefix(chunks, i);
        lemma_concat_chunks_prefix(outs, i);
        let e = concat_chunks(outs.take(i));
        let x = states[i].pending + chunks[i];
        let y = concat_chunks(chunks.skip(k));
        assert(concat_chunks(chunks) =~= e + x + y);
        lemma_absent_in_stretch(e, x, y, echo_prefix());
        lemma_find_sub(x, echo_prefix());
        assert(outs[i] == echo_run(with_more(states[i], chunks[i])).0);
        if x.len() > 18 {
            assert(x.take(x.len() - 18) + x.skip(x.len() - 18) =~= x);
        }
        assert(concat_chunks(outs.take(k)) + states[k].pending =~= e + (outs[i] + states[k].pending));
    }
}

/// Terminal output in which no echo of a wrapped command starts passes through the echo
/// filter unchanged, however it is cut into chunks: fed them by one `filter_chunk` call
/// each from a fresh state (with or without a replacement queued), the filter has
/// emitted after each call all the bytes so far but at most the last 18, which it holds;
/// and what it has emitted, with what `finish` then flushes, is the whole stream.
pub proof fn lemma_echo_calls_pass_plain_output(
    chunks: Seq<Seq<u8>>,
    outs: Seq<Seq<u8>>,
    states: Seq<EchoFilterState>,
    repl: Option<Seq<u8>>,
)
    requires
        echo_calls(chunks, outs, states),
        states[0] == (EchoFilterState { pending: Seq::empty(), stripping: false, replacement: repl }),
        find_sub(concat_chunks(chunks), echo_prefix()) is None,
    ensures
        forall|k: int|
            0 <= k <= chunks.len() ==> {
                &&& concat_chunks(chunks.take(k)).len() - 18 <= #[trigger] concat_chunks(
                    outs.take(k),
                ).len()
                &&& concat_chunks(outs.take(k)) == concat_chunks(chunks.take(k)).take(
                    concat_chunks(outs.take(k)).len() as int,
                )
            },
        concat_chunks(outs) + echo_flush(states.last()) == concat_chunks(chunks),
{
    assert forall|k: int| 0 <= k <= chunks.len() implies {
        &&& concat_chunks(chunks.take(k)).len() - 18 <= #[trigger] concat_chunks(outs.take(k)).len()
        &&& concat_chunks(outs.take(k)) == concat_chunks(chunks.take(k)).take(
            concat_chunks(outs.take(k)).len() as int,
        )
    } by {
        lemma_plain_calls_upto(chunks, outs, states, repl, k);
        let o = concat_chunks(outs.take(k));
        assert((o + states[k].pending).take(o.len() as int) =~= o);
    }
    let n = chunks.len() as int;
    lemma_plain_calls_upto(chunks, outs, states, repl, n);
    assert(outs.take(n) =~= outs);
    assert(chunks.take(n) =~= chunks);
}


// ── One echo replaced, however the stream is cut ────────────────────────────

/// No echo of a wrapped command starts in `r`.
pub open spec fn echo_free(r: Seq<u8>) -> bool {
    find_sub(r, echo_prefix()) is None
}

/// Inside an echo: no further echo starts after the end of this one, if it comes.
pub open spec fn one_echo_end(r: Seq<u8>) -> bool {
    match find_sub(r, echo_suffix()) {
        Some(i) => echo_free(r.skip(i + 20)),
        None => true,
    }
}

/// Outside an echo: at most one echo is still to start.
pub open spec fn one_echo_ahead(r: Seq<u8>) -> bool {
    match find_sub(r, echo_prefix()) {
        Some(j) => one_echo_end(r.skip(j + 19)),
        None => true,
    }
}

/// The filter in state `st`, where `r` is what it holds followed by everything still to
/// come, drops at most one more echo, and only with a replacement queued for it.
pub open spec fn replaces_at_most_once(st: EchoFilterState, r: Seq<u8>) -> bool {
    if st.stripping {
        st.replacement is Some && one_echo_end(r)
    } else if st.replacement is Some {
        one_echo_ahead(r)
    } else {
        echo_free(r)
    }
}

/// What follows a stretch in which no echo starts has none either.
proof fn lemma_echo_free_skip(r: Seq<u8>, d: int)
    requires
        echo_free(r),
        0 <= d <= r.len(),
    ensures
        echo_free(r.skip(d)),
{
    assert(r =~= r.take(d) + r.skip(d) + Seq::<u8>::empty());
    lemma_absent_in_stretch(r.take(d), r.skip(d), Seq::empty(), echo_prefix());
}

/// One run of the filter keeps the property, and does not end by dropping line breaks
/// with no replacement queued.
proof fn lemma_run_replaces_at_most_once(st: EchoFilterState, f: Seq<u8>)
    requires
        replaces_at_most_once(st, st.pending + f),
    ensures
        replaces_at_most_once(echo_run(st).1, echo_run(st).1.pending + f),
        !ends_in_dropped_breaks(st),
    decreases st.pending.len(),
{
    let x = st.pending;
    let r = x + f;
    let n = x.len() as int;
    if st.stripping {
        lemma_find_sub(x, echo_suffix());
        match find_sub(x, echo_suffix()) {
            Some(index) => {
                lemma_find_extend(x, f, echo_suffix());
                lemma_count_line_breaks_bound(x, index + 20);
                let de = index + 20 + count_line_breaks(x, index + 20);
                let next = EchoFilterState { pending: x.skip(de), stripping: false, replacement: None };
                let tail = r.skip(index + 20);
                assert(tail =~= tail.take(de - index - 20) + r.skip(de) + Seq::<u8>::empty());
                lemma_absent_in_stretch(tail.take(de - index - 20), r.skip(de), Seq::empty(), echo_prefix());
                assert(next.pending + f =~= r.skip(de));
                lemma_run_replaces_at_most_once(next, f);
            },
            None => {},
        }
    } else if st.replacement is Some {
        lemma_find_sub(x, echo_prefix());
        match find_sub(x, echo_prefix()) {
            Some(j) => {
                lemma_find_extend(x, f, echo_prefix());
                let next = EchoFilterState { pending: x.skip(j + 19), stripping: true, replacement: st.replacement };
                assert(next.pending + f =~= r.skip(j + 19));
                lemma_run_replaces_at_most_once(next, f);
            },
            None => {
                if n > 18 {
                    let e = n - 18;
                    let h = r.take(e);
                    let z = r.skip(e);
                    assert(h + z =~= r);
                    assert(x.skip(e) + f =~= z);
                    lemma_find_extend_none(x, f, echo_prefix());
                    lemma_find_sub(r, echo_prefix());
                    assert forall|j: int| 0 <= j < h.len() implies !occurs_at(h + z, echo_prefix(), j) by {
                        lemma_occurs_extend(x, f, echo_prefix(), j);
                    }
                    lemma_find_shift(h, z, echo_prefix());
                    match find_sub(r, echo_prefix()) {
                        Some(j) => {
                            assert(z.skip(j - e + 19) =~= r.skip(j + 19));
                        },
                        None => {},
                    }
                }
            },
        }
    } else {
        assert(r =~= Seq::<u8>::empty() + x + f);
        lemma_absent_in_stretch(Seq::empty(), x, f, echo_prefix());
        if n > 18 {
            lemma_echo_free_skip(r, n - 18);
            assert(x.skip(n - 18) + f =~= r.skip(n - 18));
        }
    }
}

/// What the echo filter emits when it is in state `st`, is fed `chunks` one by one, and
/// is then flushed.
pub open spec fn echo_feed_all(st: EchoFilterState, chunks: Seq<Seq<u8>>) -> Seq<u8>
    decreases chunks.len(),
{
    if chunks.len() == 0 {
        echo_flush(st)
    } else {
        let r = echo_run(with_more(st, chunks[0]));
        r.0 + echo_feed_all(r.1, chunks.drop_first())
    }
}

proof fn lemma_echo_calls_feed_all(chunks: Seq<Seq<u8>>, outs: Seq<Seq<u8>>, states: Seq<EchoFilterState>)
    requires
        echo_calls(chunks, outs, states),
    ensures
        concat_chunks(outs) + echo_flush(states.last()) == echo_feed_all(states[0], chunks),
    decreases chunks.len(),
{
    if chunks.len() == 0 {
        assert(concat_chunks(outs) + echo_flush(states.last()) =~= echo_flush(states[0]));
    } else {
        let (c1, o1, s1) = (chunks.drop_first(), outs.drop_first(), states.drop_first());
        assert forall|i: int| 0 <= i < c1.len() implies (#[trigger] o1[i], s1[i + 1]) == echo_run(
            with_more(s1[i], c1[i]),
        ) by {
            assert(outs[i + 1] == o1[i]);
        }
        assert(outs[0] == echo_run(with_more(states[0], chunks[0])).0);
        lemma_echo_calls_feed_all(c1, o1, s1);
        assert(concat_chunks(outs) + echo_flush(states.last()) =~= outs[0] + (concat_chunks(o1)
            + echo_flush(s1.last())));
    }
}

proof fn lemma_feed_all_at_most_once(st: EchoFilterState, chunks: Seq<Seq<u8>>)
    requires
        chunks.len() >= 1,
        replaces_at_most_once(st, st.pending + concat_chunks(chunks)),
    ensures
        echo_feed_all(st, chunks) == echo_total(with_more(st, concat_chunks(chunks))),
    decreases chunks.len(),
{
    let c0 = chunks[0];
    let rest = chunks.drop_first();
    let f = concat_chunks(rest);
    let w = with_more(st, c0);
    assert(w.pending + f =~= st.pending + concat_chunks(chunks));
    assert(with_more(w, f) == with_more(st, concat_chunks(chunks)));
    assert(echo_feed_all(st, chunks) == echo_run(w).0 + echo_feed_all(echo_run(w).1, rest));
    if rest.len() == 0 {
        assert(f =~= Seq::<u8>::empty());
        assert(w.pending + f =~= w.pending);
        assert(with_more(w, f) == w);
        assert(echo_feed_all(echo_run(w).1, rest) == echo_flush(echo_run(w).1));
    } else {
        lemma_run_replaces_at_most_once(w, f);
        lemma_feed_all_at_most_once(echo_run(w).1, rest);
        lemma_echo_chunking(w, f);
    }
}

/// A pattern whose first byte occurs nowhere else in it, and which does not occur in
/// `a`, first occurs in `a + p + rest` right after `a`.
proof fn lemma_first_after(a: Seq<u8>, p: Seq<u8>, rest: Seq<u8>)
    requires
        find_sub(a, p) is None,
        p.len() > 0,
        forall|t: int| 1 <= t < p.len() ==> #[trigger] p[t] != p[0],
    ensures
        find_sub(a + p + rest, p) == Some(a.len() as int),
{
    let y = a + p + rest;
    let al = a.len() as int;
    lemma_find_sub(a, p);
    lemma_find_sub(y, p);
    assert(y.subrange(al, al + p.len()) =~= p);
    assert(occurs_at(y, p, al));
    assert forall|j: int| 0 <= j < al implies !occurs_at(y, p, j) by {
        if occurs_at(y, p, j) {
            if j + p.len() <= al {
                assert(a.subrange(j, j + p.len()) =~= y.subrange(j, j + p.len()));
                assert(occurs_at(a, p, j));
            } else {
                assert(y.subrange(j, j + p.len())[al - j] == y[al]);
                assert(y[al] == p[0]);
            }
        }
    }
}

/// Line breaks followed by bytes in which no echo starts hold no echo start.
proof fn lemma_breaks_then_echo_free(n: Seq<u8>, b: Seq<u8>)
    requires
        all_line_breaks(n),
        echo_free(b),
    ensures
        echo_free(n + b),
{
    assert forall|j: int| 0 <= j < n.len() implies !occurs_at(n + b, echo_prefix(), j) by {
        if occurs_at(n + b, echo_prefix(), j) {
            assert((n + b).subrange(j, j + 19)[0] == (n + b)[j]);
        }
    }
    lemma_find_shift(n, b, echo_prefix());
}

/// The echo of a wrapped command is shown as the text queued to replace it, however the
/// stream is cut into chunks. The stream is `a`, the echo (`echo_prefix()`, then `x` in
/// which no `echo_suffix()` occurs, then `echo_suffix()`), the line breaks `n` after it,
/// and `b`; no echo starts in `a` or in `b`, and `b` does not start with a line break.
/// A fresh filter with `r` queued, fed the chunks by one `filter_chunk` call each and
/// then flushed by `finish`, emits `a`, then `r`, then `n`, then `b`.
pub proof fn lemma_echo_calls_replace_echo(
    chunks: Seq<Seq<u8>>,
    outs: Seq<Seq<u8>>,
    states: Seq<EchoFilterState>,
    r: Seq<u8>,
    a: Seq<u8>,
    x: Seq<u8>,
    n: Seq<u8>,
    b: Seq<u8>,
)
    requires
        echo_calls(chunks, outs, states),
        states[0] == (EchoFilterState { pending: Seq::empty(), stripping: false, replacement: Some(r) }),
        concat_chunks(chunks) == a + echo_prefix() + x + echo_suffix() + n + b,
        echo_free(a),
        find_sub(x, echo_suffix()) is None,
        all_line_breaks(n),
        echo_free(b),
        b.len() == 0 || !(b[0] == 0x0d || b[0] == 0x0a),
    ensures
        concat_chunks(outs) + echo_flush(states.last()) == a + r + n + b,
{
    let p = echo_prefix();
    let u = echo_suffix();
    let s = concat_chunks(chunks);
    if chunks.len() == 0 {
        assert(s.len() == 0);
    }
    lemma_echo_calls_feed_all(chunks, outs, states);
    let al = a.len() as int;
    lemma_first_after(a, p, x + u + n + b);
    assert(s =~= a + p + (x + u + n + b));
    assert(s.skip(al + 19) =~= x + u + (n + b));
    lemma_first_after(x, u, n + b);
    assert((x + u + (n + b)).skip(x.len() + 20int) =~= n + b);
    lemma_breaks_then_echo_free(n, b);
    assert(states[0].pending + s =~= s);
    lemma_feed_all_at_most_once(states[0], chunks);
    let s0 = EchoFilterState { pending: s, stripping: false, replacement: Some(r) };
    assert(with_more(states[0], s) == s0);
    lemma_first_after(a, p, Seq::empty());
    assert(a + p + Seq::<u8>::empty() =~= a + p);
    lemma_first_after(x, u, Seq::empty());
    assert(x + u + Seq::<u8>::empty() =~= x + u);
    assert(s =~= a + p + (x + u) + n + b);
    lemma_echo_replaced(a, x + u, r, n, b);
    lemma_echo_filter_passes_plain_output(b, None);
}

} // verus!
