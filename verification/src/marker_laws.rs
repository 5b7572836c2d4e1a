use vstd::prelude::*;

use crate::sequence_filter_laws::concat_chunks;

use crate::marker::{
    all_hex, ascii_bytes, begin_tag, decode_hex, end_tag, feed_result, hex_digit_char, hex_lower,
    hex_value, is_hex_digit, marker_bytes, scan_markers, MarkerEventView,
};

verus! {

/// Scanning stops inside the buffer, at or after where it started.
proof fn lemma_scan_bounds(s: Seq<u8>, i: int)
    requires
        0 <= i <= s.len(),
    ensures
        i <= scan_markers(s, i).1 <= s.len(),
    decreases s.len() - i,
{
    if i >= s.len() || s[i] != 0x1b {
        if i < s.len() {
            lemma_scan_bounds(s, i + 1);
        }
    } else if i + 72 > s.len() {
    } else if s[i + 1] != 0x5f {
        lemma_scan_bounds(s, i + 1);
    } else {
        let is_start = s.subrange(i + 2, i + 8) == begin_tag();
        let is_end = !is_start && s.subrange(i + 2, i + 6) == end_tag();
        if !is_start && !is_end {
            lemma_scan_bounds(s, i + 2);
        } else {
            let hs = i + 2 + if is_start { 6int } else { 4int };
            let he = hs + 64;
            if he + 2 > s.len() {
            } else if !all_hex(s.subrange(hs, he)) || s[he] != 0x1b || s[he + 1] != 0x5c {
                lemma_scan_bounds(s, i + 2);
            } else {
                lemma_scan_bounds(s, he + 2);
            }
        }
    }
}

/// Appending bytes changes nothing that was decided before scanning stopped:
/// scanning the longer buffer reports the same events up to the old stop, then
/// goes on from there.
proof fn lemma_scan_extend(s: Seq<u8>, t: Seq<u8>, i: int)
    requires
        0 <= i <= s.len(),
    ensures
        scan_markers(s + t, i).0 == scan_markers(s, i).0 + scan_markers(
            s + t,
            scan_markers(s, i).1,
        ).0,
        scan_markers(s + t, i).1 == scan_markers(s + t, scan_markers(s, i).1).1,
    decreases s.len() - i,
{
    let u = s + t;
    if i >= s.len() {
        assert(scan_markers(s, i).0 =~= Seq::<MarkerEventView>::empty());
        assert(scan_markers(s + t, i).0 =~= scan_markers(s, i).0 + scan_markers(s + t, i).0);
    } else {
        assert(u[i] == s[i]);
        if s[i] != 0x1b {
            lemma_scan_extend(s, t, i + 1);
        } else if i + 72 > s.len() {
            assert(scan_markers(s, i).0 =~= Seq::<MarkerEventView>::empty());
            assert(scan_markers(u, i).0 =~= scan_markers(s, i).0 + scan_markers(u, i).0);
        } else {
            assert(u[i + 1] == s[i + 1]);
            assert(u.subrange(i + 2, i + 8) =~= s.subrange(i + 2, i + 8));
            assert(u.subrange(i + 2, i + 6) =~= s.subrange(i + 2, i + 6));
            if s[i + 1] != 0x5f {
                lemma_scan_extend(s, t, i + 1);
            } else {
                let is_start = s.subrange(i + 2, i + 8) == begin_tag();
                let is_end = !is_start && s.subrange(i + 2, i + 6) == end_tag();
                if !is_start && !is_end {
                    lemma_scan_extend(s, t, i + 2);
                } else {
                    let hs = i + 2 + if is_start { 6int } else { 4int };
                    let he = hs + 64;
                    if he + 2 > s.len() {
                        assert(scan_markers(s, i).0 =~= Seq::<MarkerEventView>::empty());
                        assert(scan_markers(u, i).0 =~= scan_markers(s, i).0 + scan_markers(
                            u,
                            i,
                        ).0);
                    } else {
                        assert(u.subrange(hs, he) =~= s.subrange(hs, he));
                        assert(u[he] == s[he]);
                        assert(u[he + 1] == s[he + 1]);
                        if !all_hex(s.subrange(hs, he)) || s[he] != 0x1b || s[he + 1] != 0x5c {
                            lemma_scan_extend(s, t, i + 2);
                        } else {
                            lemma_scan_extend(s, t, he + 2);
                            let ev = if is_start {
                                MarkerEventView::Start(decode_hex(s.subrange(hs, he)))
                            } else {
                                MarkerEventView::End(decode_hex(s.subrange(hs, he)))
                            };
                            let j = scan_markers(s, he + 2).1;
                            assert(scan_markers(u, i).0 =~= seq![ev] + scan_markers(
                                u,
                                he + 2,
                            ).0);
                            assert(scan_markers(s, i).0 =~= seq![ev] + scan_markers(
                                s,
                                he + 2,
                            ).0);
                            assert(scan_markers(u, i).0 =~= scan_markers(s, i).0 + scan_markers(
                                u,
                                j,
                            ).0);
                        }
                    }
                }
            }
        }
    }
}

/// Scanning never looks behind its position: bytes before it can be dropped.
proof fn lemma_scan_shift(p: Seq<u8>, q: Seq<u8>, i: int)
    requires
        p.len() <= i,
    ensures
        scan_markers(p + q, i).0 == scan_markers(q, i - p.len()).0,
        scan_markers(p + q, i).1 == scan_markers(q, i - p.len()).1 + p.len(),
    decreases (p + q).len() - i,
{
    let u = p + q;
    let k = i - p.len();
    if i >= u.len() {
    } else {
        assert(u[i] == q[k]);
        if q[k] != 0x1b {
            lemma_scan_shift(p, q, i + 1);
        } else if i + 72 > u.len() {
        } else {
            assert(u[i + 1] == q[k + 1]);
            assert(u.subrange(i + 2, i + 8) =~= q.subrange(k + 2, k + 8));
            assert(u.subrange(i + 2, i + 6) =~= q.subrange(k + 2, k + 6));
            if q[k + 1] != 0x5f {
                lemma_scan_shift(p, q, i + 1);
            } else {
                let is_start = q.subrange(k + 2, k + 8) == begin_tag();
                let is_end = !is_start && q.subrange(k + 2, k + 6) == end_tag();
                if !is_start && !is_end {
                    lemma_scan_shift(p, q, i + 2);
                } else {
                    let tl = if is_start { 6int } else { 4int };
                    let he = i + 2 + tl + 64;
                    if he + 2 > u.len() {
                    } else {
                        assert(u.subrange(i + 2 + tl, he) =~= q.subrange(
                            k + 2 + tl,
                            k + 2 + tl + 64,
                        ));
                        assert(u[he] == q[k + 2 + tl + 64]);
                        assert(u[he + 1] == q[k + 2 + tl + 65]);
                        if !all_hex(q.subrange(k + 2 + tl, k + 2 + tl + 64)) || q[k + 2 + tl + 64]
                            != 0x1b || q[k + 2 + tl + 65] != 0x5c {
                            lemma_scan_shift(p, q, i + 2);
                        } else {
                            lemma_scan_shift(p, q, he + 2);
                        }
                    }
                }
            }
        }
    }
}

/// Feeding a detector two chunks one after the other reports the same events, and
/// leaves the same bytes kept, as feeding it their concatenation at once: markers
/// split across chunk boundaries are detected.
pub proof fn lemma_feed_chunking(buffer: Seq<u8>, a: Seq<u8>, b: Seq<u8>)
    ensures
        feed_result(buffer, a + b).0 == feed_result(buffer, a).0 + feed_result(
            feed_result(buffer, a).1,
            b,
        ).0,
        feed_result(buffer, a + b).1 == feed_result(feed_result(buffer, a).1, b).1,
{
    let s = buffer + a;
    let u = buffer + (a + b);
    assert(u =~= s + b);
    let j1 = scan_markers(s, 0).1;
    lemma_scan_bounds(s, 0);
    lemma_scan_extend(s, b, 0);
    let rest1 = s.skip(j1);
    assert(s + b =~= s.take(j1) + (rest1 + b));
    lemma_scan_shift(s.take(j1), rest1 + b, j1);
    let j2 = scan_markers(rest1 + b, 0).1;
    lemma_scan_bounds(rest1 + b, 0);
    assert((s + b).skip(j1 + j2) =~= (rest1 + b).skip(j2));
}

/// The hex digits of a byte sequence decode back to it.
pub proof fn lemma_hex_roundtrip(n: Seq<u8>)
    ensures
        decode_hex(ascii_bytes(hex_lower(n))) == n,
{
    let h = ascii_bytes(hex_lower(n));
    assert forall|k: int| 0 <= k < n.len() implies #[trigger] decode_hex(h)[k] == n[k] by {
        let b = n[k];
        let hi = b / 16;
        let lo = b % 16;
        assert(hex_lower(n)[2 * k] == hex_digit_char(hi as int));
        assert(hex_lower(n)[2 * k + 1] == hex_digit_char(lo as int));
        assert(hex_value(hex_digit_char(hi as int) as u8) == hi);
        assert(hex_value(hex_digit_char(lo as int) as u8) == lo);
    }
    assert(decode_hex(h) =~= n);
}

/// Scanning steps over bytes that are not ESC without reporting anything.
proof fn lemma_scan_skip_plain(s: Seq<u8>, i: int, k: int)
    requires
        0 <= i,
        0 <= k,
        i + k <= s.len(),
        forall|j: int| i <= j < i + k ==> s[j] != 0x1b,
    ensures
        scan_markers(s, i) == scan_markers(s, i + k),
    decreases k,
{
    if k > 0 {
        lemma_scan_skip_plain(s, i + 1, k - 1);
    }
}

/// The hex digits of a byte sequence are ASCII hex digits.
pub(crate) proof fn lemma_hex_lower_all_hex(n: Seq<u8>)
    ensures
        all_hex(ascii_bytes(hex_lower(n))),
        ascii_bytes(hex_lower(n)).len() == 2 * n.len(),
{
    assert forall|k: int| 0 <= k < ascii_bytes(hex_lower(n)).len() implies is_hex_digit(
        #[trigger] ascii_bytes(hex_lower(n))[k],
    ) by {
        let b = n[k / 2];
        if k % 2 == 0 {
            assert(hex_lower(n)[k] == hex_digit_char((b / 16) as int));
        } else {
            assert(hex_lower(n)[k] == hex_digit_char((b % 16) as int));
        }
    }
}

/// A complete marker at position `i` is reported, and scanning goes on after it.
proof fn lemma_scan_marker(s: Seq<u8>, i: int, is_start: bool, n: Seq<u8>)
    requires
        0 <= i,
        n.len() == 32,
        i + marker_bytes(if is_start { begin_tag() } else { end_tag() }, n).len() <= s.len(),
        s.subrange(
            i,
            i + marker_bytes(if is_start { begin_tag() } else { end_tag() }, n).len(),
        ) == marker_bytes(if is_start { begin_tag() } else { end_tag() }, n),
    ensures
        ({
            let m = marker_bytes(if is_start { begin_tag() } else { end_tag() }, n);
            let ev = if is_start {
                MarkerEventView::Start(n)
            } else {
                MarkerEventView::End(n)
            };
            scan_markers(s, i) == (seq![ev] + scan_markers(s, i + m.len()).0, scan_markers(
                s,
                i + m.len(),
            ).1)
        }),
{
    let tag = if is_start { begin_tag() } else { end_tag() };
    let m = marker_bytes(tag, n);
    let h = ascii_bytes(hex_lower(n));
    lemma_hex_lower_all_hex(n);
    lemma_hex_roundtrip(n);
    let tl = tag.len() as int;
    assert(m.len() == 4 + tl + 64);
    assert forall|j: int| 0 <= j < m.len() implies s[i + j] == #[trigger] m[j] by {
        assert(s.subrange(i, i + m.len())[j] == s[i + j]);
    }
    assert(s[i] == m[0]);
    assert(s[i + 1] == m[1]);
    if is_start {
        assert(s.subrange(i + 2, i + 8) =~= begin_tag()) by {
            assert forall|j: int| 0 <= j < 6 implies s.subrange(i + 2, i + 8)[j] == begin_tag()[j] by {
                assert(s[i + 2 + j] == m[2 + j]);
            }
        }
    } else {
        assert(s[i + 2] == m[2]);
        assert(s.subrange(i + 2, i + 8)[0] == s[i + 2]);
        assert(s.subrange(i + 2, i + 8) != begin_tag());
        assert(s.subrange(i + 2, i + 6) =~= end_tag()) by {
            assert forall|j: int| 0 <= j < 4 implies s.subrange(i + 2, i + 6)[j] == end_tag()[j] by {
                assert(s[i + 2 + j] == m[2 + j]);
            }
        }
    }
    let hs = i + 2 + tl;
    let he = hs + 64;
    assert(s.subrange(hs, he) =~= h) by {
        assert forall|j: int| 0 <= j < 64 implies s.subrange(hs, he)[j] == h[j] by {
            assert(s[hs + j] == m[2 + tl + j]);
        }
    }
    assert(s[he] == m[2 + tl + 64]);
    assert(s[he + 1] == m[2 + tl + 65]);
}

/// A start marker, then output without ESC bytes, then the end marker with the same
/// nonce, fed to a detector with an empty buffer, is reported as the start and the end
/// of that nonce, and nothing is kept.
pub proof fn lemma_marker_pair_detected(n: Seq<u8>, out: Seq<u8>)
    requires
        n.len() == 32,
        forall|j: int| 0 <= j < out.len() ==> out[j] != 0x1b,
    ensures
        feed_result(Seq::empty(), marker_bytes(begin_tag(), n) + out + marker_bytes(end_tag(), n))
            == (seq![MarkerEventView::Start(n), MarkerEventView::End(n)], Seq::<u8>::empty()),
{
    let b = marker_bytes(begin_tag(), n);
    let e = marker_bytes(end_tag(), n);
    let s = b + out + e;
    let all = Seq::<u8>::empty() + s;
    assert(all =~= s);
    assert(s.subrange(0, b.len() as int) =~= b);
    lemma_scan_marker(s, 0, true, n);
    lemma_scan_skip_plain(s, b.len() as int, out.len() as int);
    let j: int = (b.len() + out.len()) as int;
    assert(s.subrange(j, j + e.len()) =~= e);
    lemma_scan_marker(s, j, false, n);
    assert(scan_markers(s, s.len() as int).0 =~= Seq::<MarkerEventView>::empty());
    assert(scan_markers(s, 0).0 =~= seq![MarkerEventView::Start(n), MarkerEventView::End(n)]);
    assert(s.skip(s.len() as int) =~= Seq::<u8>::empty());
}


// ── Every complete marker, and nothing else ─────────────────────────────────

/// The marker that starts at position `p` of `s`, if a complete one does: `ESC _`, then
/// `BEGIN_` or `END_`, then 64 hex digits, then `ESC \`; reported with the bytes the
/// hex digits spell.
pub open spec fn marker_at(s: Seq<u8>, p: int) -> Option<MarkerEventView> {
    if 0 <= p && p + 2 <= s.len() && s[p] == 0x1b && s[p + 1] == 0x5f {
        if p + 74 <= s.len() && s.subrange(p + 2, p + 8) == begin_tag() && all_hex(
            s.subrange(p + 8, p + 72),
        ) && s[p + 72] == 0x1b && s[p + 73] == 0x5c {
            Some(MarkerEventView::Start(decode_hex(s.subrange(p + 8, p + 72))))
        } else if p + 72 <= s.len() && s.subrange(p + 2, p + 6) == end_tag() && all_hex(
            s.subrange(p + 6, p + 70),
        ) && s[p + 70] == 0x1b && s[p + 71] == 0x5c {
            Some(MarkerEventView::End(decode_hex(s.subrange(p + 6, p + 70))))
        } else {
            None
        }
    } else {
        None
    }
}

/// The complete markers that start at position `p` of `s` or later, left to right.
pub open spec fn markers_from(s: Seq<u8>, p: int) -> Seq<MarkerEventView>
    decreases s.len() - p,
{
    if p < 0 || p >= s.len() {
        seq![]
    } else {
        match marker_at(s, p) {
            Some(e) => seq![e] + markers_from(s, p + 1),
            None => markers_from(s, p + 1),
        }
    }
}

proof fn lemma_no_markers_between(s: Seq<u8>, a: int, b: int)
    requires
        0 <= a <= b,
        forall|q: int| a <= q < b ==> marker_at(s, q) is None,
    ensures
        markers_from(s, a) == markers_from(s, b),
    decreases b - a,
{
    if a < b {
        lemma_no_markers_between(s, a + 1, b);
    }
}

proof fn lemma_no_markers_near_end(s: Seq<u8>, a: int)
    requires
        0 <= a,
        a + 72 > s.len(),
    ensures
        markers_from(s, a) == Seq::<MarkerEventView>::empty(),
    decreases s.len() - a,
{
    if a < s.len() {
        lemma_no_markers_near_end(s, a + 1);
    }
}

/// Scanning from `i` reports exactly the complete markers that start at `i` or later.
proof fn lemma_scan_reports_markers(s: Seq<u8>, i: int)
    requires
        0 <= i <= s.len(),
    ensures
        scan_markers(s, i).0 == markers_from(s, i),
    decreases s.len() - i,
{
    if i >= s.len() {
    } else if s[i] != 0x1b {
        lemma_scan_reports_markers(s, i + 1);
    } else if i + 72 > s.len() {
        lemma_no_markers_near_end(s, i);
    } else if s[i + 1] != 0x5f {
        lemma_scan_reports_markers(s, i + 1);
    } else {
        let is_start = s.subrange(i + 2, i + 8) == begin_tag();
        let is_end = !is_start && s.subrange(i + 2, i + 6) == end_tag();
        if is_start {
            assert(s.subrange(i + 2, i + 6) != end_tag()) by {
                assert(s.subrange(i + 2, i + 6)[0] == s.subrange(i + 2, i + 8)[0]);
            }
        }
        if !is_start && !is_end {
            lemma_scan_reports_markers(s, i + 2);
            lemma_no_markers_between(s, i + 1, i + 2);
        } else {
            let hs = i + 2 + if is_start { 6int } else { 4int };
            let he = hs + 64;
            if he + 2 > s.len() {
                lemma_no_markers_near_end(s, i + 2);
                lemma_no_markers_between(s, i, i + 2);
            } else if !all_hex(s.subrange(hs, he)) || s[he] != 0x1b || s[he + 1] != 0x5c {
                lemma_scan_reports_markers(s, i + 2);
                lemma_no_markers_between(s, i + 1, i + 2);
            } else {
                lemma_scan_reports_markers(s, he + 2);
                assert forall|q: int| i + 1 <= q < he + 2 implies marker_at(s, q) is None by {
                    if i + 2 <= q < hs {
                        assert(s[q] == s.subrange(i + 2, hs + 0)[q - i - 2]);
                        if is_start {
                            assert(s.subrange(i + 2, i + 8)[q - i - 2] == begin_tag()[q - i - 2]);
                        } else {
                            assert(s.subrange(i + 2, i + 6)[q - i - 2] == end_tag()[q - i - 2]);
                        }
                    } else if hs <= q < he {
                        assert(is_hex_digit(s.subrange(hs, he)[q - hs]));
                    }
                }
                lemma_no_markers_between(s, i + 1, he + 2);
            }
        }
    }
}

/// A fresh detector fed a whole stream at once reports every complete marker in it,
/// left to right, and nothing else.
pub proof fn lemma_detector_reports_every_marker(s: Seq<u8>)
    ensures
        feed_result(Seq::empty(), s).0 == markers_from(s, 0),
{
    assert(Seq::<u8>::empty() + s =~= s);
    lemma_scan_reports_markers(s, 0);
}

/// Whether `evs` and `kept` record a detector holding `kept[0]` that is fed `chunks` by
/// one `feed` call each: call `i` reports `evs[i]` and leaves the detector holding
/// `kept[i + 1]`, as that method's contract says.
pub open spec fn detector_calls(
    chunks: Seq<Seq<u8>>,
    evs: Seq<Seq<MarkerEventView>>,
    kept: Seq<Seq<u8>>,
) -> bool {
    &&& kept.len() == chunks.len() + 1
    &&& evs.len() == chunks.len()
    &&& forall|i: int|
        0 <= i < chunks.len() ==> (#[trigger] evs[i], kept[i + 1]) == feed_result(kept[i], chunks[i])
}

proof fn lemma_detector_calls_feed(
    chunks: Seq<Seq<u8>>,
    evs: Seq<Seq<MarkerEventView>>,
    kept: Seq<Seq<u8>>,
)
    requires
        detector_calls(chunks, evs, kept),
        chunks.len() >= 1,
    ensures
        evs.flatten() == feed_result(kept[0], concat_chunks(chunks)).0,
    decreases chunks.len(),
{
    let (c1, e1, k1) = (chunks.drop_first(), evs.drop_first(), kept.drop_first());
    assert(evs[0] == feed_result(kept[0], chunks[0]).0);
    if c1.len() == 0 {
        assert(concat_chunks(c1) =~= Seq::<u8>::empty());
        assert(chunks[0] + concat_chunks(c1) =~= chunks[0]);
        assert(e1.flatten() =~= Seq::<MarkerEventView>::empty());
        assert(evs.flatten() =~= evs[0]);
    } else {
        assert forall|i: int| 0 <= i < c1.len() implies (#[trigger] e1[i], k1[i + 1]) == feed_result(
            k1[i],
            c1[i],
        ) by {
            assert(evs[i + 1] == e1[i]);
        }
        lemma_detector_calls_feed(c1, e1, k1);
        lemma_feed_chunking(kept[0], chunks[0], concat_chunks(c1));
    }
}

/// However a stream is cut into chunks, and into however many, a fresh detector fed
/// them by one `feed` call each reports, over all the calls, every complete marker in
/// the stream, left to right, and nothing else: a marker split across chunks is
/// reported once, and markers are reported whatever their nonces.
pub proof fn lemma_detector_calls_report_every_marker(
    chunks: Seq<Seq<u8>>,
    evs: Seq<Seq<MarkerEventView>>,
    kept: Seq<Seq<u8>>,
)
    requires
        detector_calls(chunks, evs, kept),
        kept[0] == Seq::<u8>::empty(),
    ensures
        evs.flatten() == markers_from(concat_chunks(chunks), 0),
{
    if chunks.len() == 0 {
        assert(evs.flatten() =~= Seq::<MarkerEventView>::empty());
    } else {
        lemma_detector_calls_feed(chunks, evs, kept);
        lemma_detector_reports_every_marker(concat_chunks(chunks));
    }
}

} // verus!
