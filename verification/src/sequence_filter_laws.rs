use vstd::prelude::*;

use crate::bytes::{find_sub, lemma_find_sub, occurs_at};
use crate::fe_master::{apc_begin, apc_end, apc_term, min_position, sequence_run};

verus! {

/// Everything the marker filter emits for `x` when the stream ends there: what one run
/// emits, then the bytes it kept, which `finish` flushes.
pub open spec fn sequence_total(x: Seq<u8>) -> Seq<u8> {
    sequence_run(x).0 + sequence_run(x).1
}

/// Where the first marker (`ESC _ BEGIN_` or `ESC _ END_`) starts in `x`.
pub open spec fn marker_start(x: Seq<u8>) -> Option<int> {
    min_position(find_sub(x, apc_begin()), find_sub(x, apc_end()))
}

/// A pattern whose only escape byte is its first.
pub(crate) open spec fn esc_led(p: Seq<u8>) -> bool {
    p.len() > 0 && p[0] == 0x1bu8 && forall|t: int| 1 <= t < p.len() ==> p[t] != 0x1bu8
}

proof fn lemma_markers_esc_led()
    ensures
        esc_led(apc_begin()),
        esc_led(apc_end()),
{
}

pub(crate) proof fn lemma_occurs_extend(y: Seq<u8>, b: Seq<u8>, p: Seq<u8>, j: int)
    requires
        0 <= j,
        j + p.len() <= y.len(),
    ensures
        occurs_at(y + b, p, j) == occurs_at(y, p, j),
{
    assert((y + b).subrange(j, j + p.len()) =~= y.subrange(j, j + p.len()));
}

proof fn lemma_occurs_shift(h: Seq<u8>, z: Seq<u8>, p: Seq<u8>, j: int)
    requires
        0 <= j,
    ensures
        occurs_at(h + z, p, j + h.len()) == occurs_at(z, p, j),
{
    if j + p.len() <= z.len() {
        assert((h + z).subrange(j + h.len(), j + h.len() + p.len()) =~= z.subrange(j, j + p.len()));
    }
}

/// The first occurrence in `y` stays the first once more bytes follow.
pub(crate) proof fn lemma_find_extend(y: Seq<u8>, b: Seq<u8>, p: Seq<u8>)
    requires
        find_sub(y, p) is Some,
    ensures
        find_sub(y + b, p) == find_sub(y, p),
{
    lemma_find_sub(y, p);
    lemma_find_sub(y + b, p);
    let j = find_sub(y, p)->0;
    lemma_occurs_extend(y, b, p, j);
    assert forall|k: int| 0 <= k < j implies !occurs_at(y + b, p, k) by {
        lemma_occurs_extend(y, b, p, k);
    }
}

/// An occurrence that appears only once `b` follows `y` reaches past the end of `y`.
pub(crate) proof fn lemma_find_extend_none(y: Seq<u8>, b: Seq<u8>, p: Seq<u8>)
    requires
        find_sub(y, p) is None,
    ensures
        find_sub(y + b, p) is Some ==> find_sub(y + b, p)->0 + p.len() > y.len(),
{
    lemma_find_sub(y, p);
    lemma_find_sub(y + b, p);
    if find_sub(y + b, p) is Some {
        let k = find_sub(y + b, p)->0;
        if k + p.len() <= y.len() {
            lemma_occurs_extend(y, b, p, k);
        }
    }
}

/// With no occurrence in the head `h`, the first occurrence in `h + z` is the first in
/// `z`, moved by the length of `h`.
pub(crate) proof fn lemma_find_shift(h: Seq<u8>, z: Seq<u8>, p: Seq<u8>)
    requires
        forall|j: int| 0 <= j < h.len() ==> !occurs_at(h + z, p, j),
    ensures
        find_sub(h + z, p) == (match find_sub(z, p) {
            Some(j) => Some(j + h.len()),
            None => None,
        }),
{
    lemma_find_sub(h + z, p);
    lemma_find_sub(z, p);
    assert forall|j: int| 0 <= j implies occurs_at(h + z, p, j + h.len()) == occurs_at(z, p, j) by {
        lemma_occurs_shift(h, z, p, j);
    }
    match find_sub(h + z, p) {
        Some(q) => {
            assert(occurs_at(z, p, q - h.len()));
        },
        None => {
            if find_sub(z, p) is Some {
                let j = find_sub(z, p)->0;
                assert(occurs_at(h + z, p, j + h.len()));
            }
        },
    }
}

/// Two escape-led patterns cannot start one inside the other.
pub(crate) proof fn lemma_no_overlap(s: Seq<u8>, p: Seq<u8>, q: Seq<u8>, k: int, i: int)
    requires
        esc_led(p),
        esc_led(q),
        occurs_at(s, p, k),
        occurs_at(s, q, i),
    ensures
        !(k < i < k + p.len()),
{
    if k < i < k + p.len() {
        assert(s.subrange(k, k + p.len())[i - k] == s[i]);
        assert(s.subrange(i, i + q.len())[0] == s[i]);
    }
}

/// The first marker start in `x` stays the first once more bytes follow.
proof fn lemma_marker_start_extend(x: Seq<u8>, b: Seq<u8>)
    requires
        marker_start(x) is Some,
    ensures
        marker_start(x + b) == marker_start(x),
{
    let bp = apc_begin();
    let ep = apc_end();
    lemma_markers_esc_led();
    lemma_find_sub(x, bp);
    lemma_find_sub(x, ep);
    lemma_find_sub(x + b, bp);
    lemma_find_sub(x + b, ep);
    if find_sub(x, bp) is Some {
        lemma_find_extend(x, b, bp);
    } else {
        lemma_find_extend_none(x, b, bp);
    }
    if find_sub(x, ep) is Some {
        lemma_find_extend(x, b, ep);
    } else {
        lemma_find_extend_none(x, b, ep);
    }
    if find_sub(x, bp) is Some && find_sub(x, ep) is None && find_sub(x + b, ep) is Some {
        let i = find_sub(x, bp)->0;
        let k = find_sub(x + b, ep)->0;
        lemma_occurs_extend(x, b, bp, i);
        lemma_no_overlap(x + b, ep, bp, k, i);
        assert(k > i);
    }
    if find_sub(x, ep) is Some && find_sub(x, bp) is None && find_sub(x + b, bp) is Some {
        let i = find_sub(x, ep)->0;
        let k = find_sub(x + b, bp)->0;
        lemma_occurs_extend(x, b, ep, i);
        lemma_no_overlap(x + b, bp, ep, k, i);
        if k == i {
            assert((x + b).subrange(k, k + 8)[2] == (x + b)[i + 2]);
            assert((x + b).subrange(i, i + 6)[2] == (x + b)[i + 2]);
        }
        assert(k > i);
    }
}

/// A head in which no marker starts passes through the marker filter whole.
proof fn lemma_total_marker_free_head(h: Seq<u8>, z: Seq<u8>)
    requires
        forall|j: int|
            0 <= j < h.len() ==> !occurs_at(h + z, apc_begin(), j) && !occurs_at(
                h + z,
                apc_end(),
                j,
            ),
    ensures
        sequence_total(h + z) == h + sequence_total(z),
{
    let y = h + z;
    let hl = h.len() as int;
    lemma_find_shift(h, z, apc_begin());
    lemma_find_shift(h, z, apc_end());
    match marker_start(z) {
        Some(i) => {
            lemma_find_sub(z, apc_begin());
            lemma_find_sub(z, apc_end());
            assert(marker_start(y) == Some(i + hl));
            assert(y.skip(i + hl + 1) =~= z.skip(i + 1));
            match find_sub(z.skip(i + 1), apc_term()) {
                Some(r) => {
                    lemma_find_sub(z.skip(i + 1), apc_term());
                    let c = i + 1 + r + 2;
                    assert(y.skip(c + hl) =~= z.skip(c));
                    assert(y.take(i + hl) =~= h + z.take(i));
                    assert(sequence_total(y) =~= y.take(i + hl) + sequence_total(z.skip(c)));
                    assert(sequence_total(z) =~= z.take(i) + sequence_total(z.skip(c)));
                },
                None => {
                    assert(sequence_total(y) =~= y);
                    assert(sequence_total(z) =~= z);
                },
            }
        },
        None => {
            assert(marker_start(y) is None);
            assert(sequence_total(y) =~= y);
            assert(sequence_total(z) =~= z);
        },
    }
}

/// A marker closed within `x` is dropped the same way once more bytes follow.
proof fn lemma_chunk_closed(x: Seq<u8>, b: Seq<u8>, i: int, r: int)
    requires
        marker_start(x) == Some(i),
        find_sub(x.skip(i + 1), apc_term()) == Some(r),
    ensures
        0 <= i,
        0 <= r,
        i + 1 + r + 2 <= x.len(),
        sequence_run(x).0 == x.take(i) + sequence_run(x.skip(i + 1 + r + 2)).0,
        sequence_run(x).1 == sequence_run(x.skip(i + 1 + r + 2)).1,
        sequence_total(x + b) == x.take(i) + sequence_total(x.skip(i + 1 + r + 2) + b),
{
    lemma_find_sub(x, apc_begin());
    lemma_find_sub(x, apc_end());
    lemma_marker_start_extend(x, b);
    assert((x + b).skip(i + 1) =~= x.skip(i + 1) + b);
    assert((x + b).take(i) =~= x.take(i));
    lemma_find_sub(x.skip(i + 1), apc_term());
    lemma_find_extend(x.skip(i + 1), b, apc_term());
    let c = i + 1 + r + 2;
    assert((x + b).skip(c) =~= x.skip(c) + b);
}

/// The bytes kept from an open marker start with that marker.
proof fn lemma_kept_marker_first(x: Seq<u8>, b: Seq<u8>, i: int)
    requires
        marker_start(x) == Some(i),
    ensures
        0 <= i < x.len(),
        marker_start(x.skip(i) + b) == Some(0int),
{
    lemma_find_sub(x, apc_begin());
    lemma_find_sub(x, apc_end());
    let y = x.skip(i) + b;
    let p = if find_sub(x, apc_begin()) == Some(i) {
        apc_begin()
    } else {
        apc_end()
    };
    assert(occurs_at(x, p, i));
    assert(y.subrange(0, p.len() as int) =~= x.subrange(i, i + p.len()));
    lemma_find_sub(y, apc_begin());
    lemma_find_sub(y, apc_end());
}

/// Once a marker starts at `i`, what the filter emits for the stream is the bytes before
/// it and what it emits for the rest.
proof fn lemma_total_from_marker(x: Seq<u8>, b: Seq<u8>, i: int)
    requires
        marker_start(x) == Some(i),
    ensures
        0 <= i < x.len(),
        sequence_total(x + b) == x.take(i) + sequence_total(x.skip(i) + b),
{
    lemma_kept_marker_first(x, b, i);
    lemma_marker_start_extend(x, b);
    let y = x.skip(i) + b;
    assert((x + b).take(i) =~= x.take(i));
    assert(y.skip(1) =~= (x + b).skip(i + 1));
    match find_sub(y.skip(1), apc_term()) {
        Some(r) => {
            lemma_find_sub(y.skip(1), apc_term());
            let c = 1 + r + 2;
            assert((x + b).skip(i + c) =~= y.skip(c));
            assert(y.take(0) =~= Seq::<u8>::empty());
            assert(sequence_total(y) =~= sequence_total(y.skip(c)));
            assert(sequence_total(x + b) =~= x.take(i) + sequence_total(y.skip(c)));
        },
        None => {
            assert(sequence_total(y) =~= y);
            assert(x.take(i) + y =~= x + b);
            assert(sequence_total(x + b) =~= x + b);
        },
    }
}

/// A marker still open at the end of `x` is kept, and dropped with what follows as it
/// would have been in one piece.
proof fn lemma_chunk_open(x: Seq<u8>, b: Seq<u8>, i: int)
    requires
        marker_start(x) == Some(i),
        find_sub(x.skip(i + 1), apc_term()) is None,
    ensures
        sequence_run(x).0 + sequence_total(sequence_run(x).1 + b) == sequence_total(x + b),
{
    lemma_total_from_marker(x, b, i);
    assert(sequence_run(x).0 =~= x.take(i));
    assert(sequence_run(x).1 =~= x.skip(i));
}

/// With no marker start in `x`, what it emits at once and what it keeps add up.
proof fn lemma_chunk_plain(x: Seq<u8>, b: Seq<u8>)
    requires
        marker_start(x) is None,
    ensures
        sequence_run(x).0 + sequence_total(sequence_run(x).1 + b) == sequence_total(x + b),
{
    let n = x.len() as int;
    lemma_find_sub(x, apc_begin());
    lemma_find_sub(x, apc_end());
    if n > 7 {
        let h = x.take(n - 7);
        let z = x.skip(n - 7) + b;
        assert(h + z =~= x + b);
        assert forall|j: int| 0 <= j < h.len() implies !occurs_at(h + z, apc_begin(), j)
            && !occurs_at(h + z, apc_end(), j) by {
            lemma_occurs_extend(x, b, apc_begin(), j);
            lemma_occurs_extend(x, b, apc_end(), j);
        }
        lemma_total_marker_free_head(h, z);
    }
}

/// How the stream is cut into chunks does not change what the marker filter emits:
/// running it on `x`, then on the bytes it kept followed by `b`, and flushing at the
/// end, emits what running it on `x` followed by `b` and flushing emits.
pub proof fn lemma_sequence_chunking(x: Seq<u8>, b: Seq<u8>)
    ensures
        sequence_run(x).0 + sequence_total(sequence_run(x).1 + b) == sequence_total(x + b),
    decreases x.len(),
{
    match marker_start(x) {
        Some(i) => match find_sub(x.skip(i + 1), apc_term()) {
            Some(r) => {
                lemma_chunk_closed(x, b, i, r);
                let rest = x.skip(i + 1 + r + 2);
                lemma_sequence_chunking(rest, b);
                assert(sequence_run(x).0 + sequence_total(sequence_run(x).1 + b) =~= x.take(i)
                    + (sequence_run(rest).0 + sequence_total(sequence_run(rest).1 + b)));
            },
            None => lemma_chunk_open(x, b, i),
        },
        None => lemma_chunk_plain(x, b),
    }
}

/// The chunks of a stream, one after the other.
pub open spec fn concat_chunks(chunks: Seq<Seq<u8>>) -> Seq<u8>
    decreases chunks.len(),
{
    if chunks.len() == 0 {
        seq![]
    } else {
        chunks[0] + concat_chunks(chunks.drop_first())
    }
}

/// What the marker filter emits when it holds `kept`, is fed `chunks` one by one, and
/// is then flushed.
pub open spec fn sequence_feed_all(kept: Seq<u8>, chunks: Seq<Seq<u8>>) -> Seq<u8>
    decreases chunks.len(),
{
    if chunks.len() == 0 {
        kept
    } else {
        let r = sequence_run(kept + chunks[0]);
        r.0 + sequence_feed_all(r.1, chunks.drop_first())
    }
}

proof fn lemma_feed_all_from(x: Seq<u8>, chunks: Seq<Seq<u8>>)
    ensures
        sequence_run(x).0 + sequence_feed_all(sequence_run(x).1, chunks) == sequence_total(
            x + concat_chunks(chunks),
        ),
    decreases chunks.len(),
{
    if chunks.len() == 0 {
        assert(x + concat_chunks(chunks) =~= x);
    } else {
        let k = sequence_run(x).1;
        let c = chunks[0];
        let cs = chunks.drop_first();
        lemma_feed_all_from(k + c, cs);
        lemma_sequence_chunking(x, c + concat_chunks(cs));
        assert(k + c + concat_chunks(cs) =~= k + (c + concat_chunks(cs)));
        assert(x + concat_chunks(chunks) =~= x + (c + concat_chunks(cs)));
        assert(sequence_run(x).0 + sequence_feed_all(k, chunks) =~= sequence_run(x).0 + (
        sequence_run(k + c).0 + sequence_feed_all(sequence_run(k + c).1, cs)));
    }
}

/// However the stream is cut into any number of chunks, a fresh marker filter fed them
/// one by one and then flushed emits what it emits for the whole stream at once.
pub proof fn lemma_sequence_any_chunking(chunks: Seq<Seq<u8>>)
    ensures
        sequence_feed_all(Seq::empty(), chunks) == sequence_total(concat_chunks(chunks)),
{
    let e = Seq::<u8>::empty();
    lemma_find_sub(e, apc_begin());
    lemma_find_sub(e, apc_end());
    assert(sequence_run(e) == (Seq::<u8>::empty(), Seq::<u8>::empty()));
    lemma_feed_all_from(e, chunks);
    assert(e + concat_chunks(chunks) =~= concat_chunks(chunks));
    assert(Seq::<u8>::empty() + sequence_feed_all(e, chunks) =~= sequence_feed_all(e, chunks));
}


/// Whether `outs` and `kept` record a marker filter that holds `kept[0]` and is fed
/// `chunks` by one `filter_chunk` call each: call `i` returns `outs[i]` and leaves the
/// filter holding `kept[i + 1]`, as that method's contract says.
pub open spec fn sequence_calls(chunks: Seq<Seq<u8>>, outs: Seq<Seq<u8>>, kept: Seq<Seq<u8>>) -> bool {
    &&& kept.len() == chunks.len() + 1
    &&& outs.len() == chunks.len()
    &&& forall|i: int|
        0 <= i < chunks.len() ==> (#[trigger] outs[i], kept[i + 1]) == sequence_run(kept[i] + chunks[i])
}

proof fn lemma_calls_feed_all(chunks: Seq<Seq<u8>>, outs: Seq<Seq<u8>>, kept: Seq<Seq<u8>>)
    requires
        sequence_calls(chunks, outs, kept),
    ensures
        concat_chunks(outs) + kept.last() == sequence_feed_all(kept[0], chunks),
    decreases chunks.len(),
{
    if chunks.len() == 0 {
        assert(concat_chunks(outs) + kept.last() =~= kept[0]);
    } else {
        let (c1, o1, k1) = (chunks.drop_first(), outs.drop_first(), kept.drop_first());
        assert forall|i: int| 0 <= i < c1.len() implies (#[trigger] o1[i], k1[i + 1]) == sequence_run(
            k1[i] + c1[i],
        ) by {
            assert(outs[i + 1] == o1[i]);
        }
        assert(outs[0] == sequence_run(kept[0] + chunks[0]).0);
        lemma_calls_feed_all(c1, o1, k1);
        assert(concat_chunks(outs) + kept.last() =~= outs[0] + (concat_chunks(o1) + k1.last()));
    }
}

/// However the stream is cut into chunks, and into however many: a fresh marker filter
/// fed them by one `filter_chunk` call each, then flushed by `finish` (which hands out
/// what it holds), emits in all what it emits for the whole stream in one chunk, which
/// is the stream with its marker spans deleted.
pub proof fn lemma_sequence_calls_any_chunking(
    chunks: Seq<Seq<u8>>,
    outs: Seq<Seq<u8>>,
    kept: Seq<Seq<u8>>,
)
    requires
        sequence_calls(chunks, outs, kept),
        kept[0] == Seq::<u8>::empty(),
    ensures
        concat_chunks(outs) + kept.last() == sequence_total(concat_chunks(chunks)),
        concat_chunks(outs) + kept.last() == without_marker_spans(concat_chunks(chunks)),
{
    lemma_calls_feed_all(chunks, outs, kept);
    lemma_sequence_any_chunking(chunks);
    lemma_sequence_total_deletes_spans(concat_chunks(chunks));
}


/// The chunks of two runs of chunks, one run after the other, are the bytes of each.
pub proof fn lemma_concat_chunks_append(a: Seq<Seq<u8>>, b: Seq<Seq<u8>>)
    ensures
        concat_chunks(a + b) == concat_chunks(a) + concat_chunks(b),
    decreases a.len(),
{
    if a.len() == 0 {
        assert(a + b =~= b);
        assert(concat_chunks(a) + concat_chunks(b) =~= concat_chunks(b));
    } else {
        assert((a + b).drop_first() =~= a.drop_first() + b);
        lemma_concat_chunks_append(a.drop_first(), b);
        assert(concat_chunks(a + b) =~= a[0] + concat_chunks(a.drop_first() + b));
        assert(concat_chunks(a) + concat_chunks(b) =~= a[0] + (concat_chunks(a.drop_first())
            + concat_chunks(b)));
    }
}

/// The bytes of the first `k + 1` chunks are those of the first `k` and then chunk `k`;
/// and they are followed in the whole stream by the bytes of the chunks after them.
pub proof fn lemma_concat_chunks_prefix(chunks: Seq<Seq<u8>>, k: int)
    requires
        0 <= k < chunks.len(),
    ensures
        concat_chunks(chunks.take(k + 1)) == concat_chunks(chunks.take(k)) + chunks[k],
        concat_chunks(chunks) == concat_chunks(chunks.take(k + 1)) + concat_chunks(chunks.skip(k + 1)),
{
    let one = seq![chunks[k]];
    assert(chunks.take(k + 1) =~= chunks.take(k) + one);
    lemma_concat_chunks_append(chunks.take(k), one);
    assert(one.drop_first() =~= Seq::<Seq<u8>>::empty());
    assert(concat_chunks(one.drop_first()) =~= Seq::<u8>::empty());
    assert(concat_chunks(one) =~= chunks[k]);
    assert(chunks =~= chunks.take(k + 1) + chunks.skip(k + 1));
    lemma_concat_chunks_append(chunks.take(k + 1), chunks.skip(k + 1));
}


/// `x` with every marker span deleted: a span runs from an `ESC _ BEGIN_` or
/// `ESC _ END_` through the next `ESC \`; from a marker start with no `ESC \` after it,
/// the bytes are kept as they are.
pub open spec fn without_marker_spans(x: Seq<u8>) -> Seq<u8>
    decreases x.len(),
{
    match marker_start(x) {
        None => x,
        Some(i) => {
            proof {
                lemma_find_sub(x, apc_begin());
                lemma_find_sub(x, apc_end());
            }
            if 0 <= i < x.len() {
                match find_sub(x.skip(i + 1), apc_term()) {
                    Some(t) => {
                        proof {
                            lemma_find_sub(x.skip(i + 1), apc_term());
                        }
                        x.take(i) + without_marker_spans(x.skip(i + 1 + t + 2))
                    },
                    None => x,
                }
            } else {
                x
            }
        },
    }
}

/// What the marker filter emits in all for a stream is the stream with its marker spans
/// deleted.
pub proof fn lemma_sequence_total_deletes_spans(x: Seq<u8>)
    ensures
        sequence_total(x) == without_marker_spans(x),
    decreases x.len(),
{
    lemma_find_sub(x, apc_begin());
    lemma_find_sub(x, apc_end());
    match marker_start(x) {
        Some(i) => {
            lemma_find_sub(x.skip(i + 1), apc_term());
            match find_sub(x.skip(i + 1), apc_term()) {
                Some(t) => {
                    lemma_sequence_total_deletes_spans(x.skip(i + 1 + t + 2));
                    assert(sequence_total(x) =~= x.take(i) + sequence_total(x.skip(i + 1 + t + 2)));
                },
                None => {
                    assert(x.take(i) + x.skip(i) =~= x);
                },
            }
        },
        None => {
            if x.len() > 7 {
                assert(x.take(x.len() - 7) + x.skip(x.len() - 7) =~= x);
            }
        },
    }
}

/// Output in which no marker starts passes through the marker filter unchanged.
pub proof fn lemma_sequence_passes_plain_output(x: Seq<u8>)
    requires
        find_sub(x, apc_begin()) is None,
        find_sub(x, apc_end()) is None,
    ensures
        sequence_total(x) == x,
{
    lemma_sequence_total_deletes_spans(x);
}

} // verus!
