use base64::Engine;
use vstd::prelude::*;

use crate::bytes::{append_range, find_sub, find_subsequence, lemma_find_sub};
use crate::marker::all_hex;

verus! {

// ── The byte patterns ────────────────────────────────────────────────────────

/// `printf '\033_BEGIN_`: how the echo of an injected command starts.
pub open spec fn echo_prefix() -> Seq<u8> {
    seq![
        0x70u8, 0x72, 0x69, 0x6e, 0x74, 0x66, 0x20, 0x27, 0x5c, 0x30, 0x33, 0x33, 0x5f, 0x42,
        0x45, 0x47, 0x49, 0x4e, 0x5f,
    ]
}

/// `; unset __shush_exit`: how the echo of an injected command ends.
pub open spec fn echo_suffix() -> Seq<u8> {
    seq![
        0x3bu8, 0x20, 0x75, 0x6e, 0x73, 0x65, 0x74, 0x20, 0x5f, 0x5f, 0x73, 0x68, 0x75, 0x73,
        0x68, 0x5f, 0x65, 0x78, 0x69, 0x74,
    ]
}

/// `\033\\'; `: what follows the start nonce, before the user's command.
pub open spec fn echo_middle() -> Seq<u8> {
    seq![0x5cu8, 0x30, 0x33, 0x33, 0x5c, 0x5c, 0x27, 0x3b, 0x20]
}

/// `; __shush_exit=$?; printf '\033_END_`: what follows the user's command.
pub open spec fn echo_end_prefix() -> Seq<u8> {
    seq![
        0x3bu8, 0x20, 0x5f, 0x5f, 0x73, 0x68, 0x75, 0x73, 0x68, 0x5f, 0x65, 0x78, 0x69, 0x74,
        0x3d, 0x24, 0x3f, 0x3b, 0x20, 0x70, 0x72, 0x69, 0x6e, 0x74, 0x66, 0x20, 0x27, 0x5c,
        0x30, 0x33, 0x33, 0x5f, 0x45, 0x4e, 0x44, 0x5f,
    ]
}

/// `_%s\033\\' "$__shush_exit"; unset __shush_exit`: what follows the end nonce.
pub open spec fn echo_end_suffix() -> Seq<u8> {
    seq![
        0x5fu8, 0x25, 0x73, 0x5c, 0x30, 0x33, 0x33, 0x5c, 0x5c, 0x27, 0x20, 0x22, 0x24, 0x5f,
        0x5f, 0x73, 0x68, 0x75, 0x73, 0x68, 0x5f, 0x65, 0x78, 0x69, 0x74, 0x22, 0x3b, 0x20,
        0x75, 0x6e, 0x73, 0x65, 0x74, 0x20, 0x5f, 0x5f, 0x73, 0x68, 0x75, 0x73, 0x68, 0x5f,
        0x65, 0x78, 0x69, 0x74,
    ]
}

/// `ESC _ BEGIN_`
pub open spec fn apc_begin() -> Seq<u8> {
    seq![0x1bu8, 0x5f, 0x42, 0x45, 0x47, 0x49, 0x4e, 0x5f]
}

/// `ESC _ END_`
pub open spec fn apc_end() -> Seq<u8> {
    seq![0x1bu8, 0x5f, 0x45, 0x4e, 0x44, 0x5f]
}

/// `ESC \`
pub open spec fn apc_term() -> Seq<u8> {
    seq![0x1bu8, 0x5c]
}

fn echo_prefix_bytes() -> (r: [u8; 19])
    ensures
        r@ == echo_prefix(),
{
    let r = [
        0x70u8, 0x72, 0x69, 0x6e, 0x74, 0x66, 0x20, 0x27, 0x5c, 0x30, 0x33, 0x33, 0x5f, 0x42,
        0x45, 0x47, 0x49, 0x4e, 0x5f,
    ];
    assert(r@ =~= echo_prefix());
    r
}

fn echo_suffix_bytes() -> (r: [u8; 20])
    ensures
        r@ == echo_suffix(),
{
    let r = [
        0x3bu8, 0x20, 0x75, 0x6e, 0x73, 0x65, 0x74, 0x20, 0x5f, 0x5f, 0x73, 0x68, 0x75, 0x73,
        0x68, 0x5f, 0x65, 0x78, 0x69, 0x74,
    ];
    assert(r@ =~= echo_suffix());
    r
}

fn echo_middle_bytes() -> (r: [u8; 9])
    ensures
        r@ == echo_middle(),
{
    let r = [0x5cu8, 0x30, 0x33, 0x33, 0x5c, 0x5c, 0x27, 0x3b, 0x20];
    assert(r@ =~= echo_middle());
    r
}

fn echo_end_prefix_bytes() -> (r: [u8; 36])
    ensures
        r@ == echo_end_prefix(),
{
    let r = [
        0x3bu8, 0x20, 0x5f, 0x5f, 0x73, 0x68, 0x75, 0x73, 0x68, 0x5f, 0x65, 0x78, 0x69, 0x74,
        0x3d, 0x24, 0x3f, 0x3b, 0x20, 0x70, 0x72, 0x69, 0x6e, 0x74, 0x66, 0x20, 0x27, 0x5c,
        0x30, 0x33, 0x33, 0x5f, 0x45, 0x4e, 0x44, 0x5f,
    ];
    assert(r@ =~= echo_end_prefix());
    r
}

fn echo_end_suffix_bytes() -> (r: [u8; 46])
    ensures
        r@ == echo_end_suffix(),
{
    let r = [
        0x5fu8, 0x25, 0x73, 0x5c, 0x30, 0x33, 0x33, 0x5c, 0x5c, 0x27, 0x20, 0x22, 0x24, 0x5f,
        0x5f, 0x73, 0x68, 0x75, 0x73, 0x68, 0x5f, 0x65, 0x78, 0x69, 0x74, 0x22, 0x3b, 0x20,
        0x75, 0x6e, 0x73, 0x65, 0x74, 0x20, 0x5f, 0x5f, 0x73, 0x68, 0x75, 0x73, 0x68, 0x5f,
        0x65, 0x78, 0x69, 0x74,
    ];
    assert(r@ =~= echo_end_suffix());
    r
}

fn apc_begin_bytes() -> (r: [u8; 8])
    ensures
        r@ == apc_begin(),
{
    let r = [0x1bu8, 0x5f, 0x42, 0x45, 0x47, 0x49, 0x4e, 0x5f];
    assert(r@ =~= apc_begin());
    r
}

fn apc_end_bytes() -> (r: [u8; 6])
    ensures
        r@ == apc_end(),
{
    let r = [0x1bu8, 0x5f, 0x45, 0x4e, 0x44, 0x5f];
    assert(r@ =~= apc_end());
    r
}

fn apc_term_bytes() -> (r: [u8; 2])
    ensures
        r@ == apc_term(),
{
    let r = [0x1bu8, 0x5c];
    assert(r@ =~= apc_term());
    r
}

// ── Line breaks ──────────────────────────────────────────────────────────────

/// How many `\r` or `\n` bytes follow one another from position `k`.
pub open spec fn count_line_breaks(s: Seq<u8>, k: int) -> nat
    decreases s.len() - k,
{
    if 0 <= k < s.len() && (s[k] == 0x0d || s[k] == 0x0a) {
        1 + count_line_breaks(s, k + 1)
    } else {
        0
    }
}

pub proof fn lemma_count_line_breaks_bound(s: Seq<u8>, k: int)
    requires
        0 <= k <= s.len(),
    ensures
        k + count_line_breaks(s, k) <= s.len(),
    decreases s.len() - k,
{
    if k < s.len() && (s[k] == 0x0d || s[k] == 0x0a) {
        lemma_count_line_breaks_bound(s, k + 1);
    }
}

/// The position after the run of `\r`/`\n` bytes that starts at `k`.
fn skip_line_breaks(s: &[u8], k: usize) -> (e: usize)
    requires
        k <= s@.len(),
    ensures
        e == k + count_line_breaks(s@, k as int),
        e <= s@.len(),
{
    let mut e = k;
    while e < s.len() && (s[e] == 0x0d || s[e] == 0x0a)
        invariant
            k <= e <= s@.len(),
            count_line_breaks(s@, k as int) == (e - k) + count_line_breaks(s@, e as int),
        decreases s@.len() - e,
    {
        e += 1;
    }
    e
}

// ── Echo filter ──────────────────────────────────────────────────────────────

/// The state of a `MarkerEchoFilter`.
pub struct EchoFilterState {
    pub pending: Seq<u8>,
    pub stripping: bool,
    pub replacement: Option<Seq<u8>>,
}

/// Runs the echo filter on its state until it needs more input: the bytes it emits
/// and the state it is left in.
///
/// Outside an echo, everything before the next `echo_prefix()` is emitted and the
/// filter starts stripping; with no prefix in sight, all but the last 18 bytes (which
/// may start a prefix) are emitted. While stripping, everything up to and including
/// the next `echo_suffix()` is dropped, and so are the line breaks right after it;
/// if a replacement is queued, it is emitted in place of the echo, followed by those
/// line breaks, and the queue is emptied.
pub open spec fn echo_run(st: EchoFilterState) -> (Seq<u8>, EchoFilterState)
    decreases st.pending.len(),
{
    if st.stripping {
        match find_sub(st.pending, echo_suffix()) {
            Some(index) => {
                proof {
                    lemma_find_sub(st.pending, echo_suffix());
                    lemma_count_line_breaks_bound(st.pending, index + 20);
                }
                let se = index + 20;
                let de = se + count_line_breaks(st.pending, se);
                let emitted = match st.replacement {
                    Some(r) => r + st.pending.subrange(se, de),
                    None => Seq::empty(),
                };
                let r = echo_run(
                    EchoFilterState { pending: st.pending.skip(de), stripping: false, replacement: None },
                );
                (emitted + r.0, r.1)
            },
            None => (Seq::empty(), st),
        }
    } else {
        match find_sub(st.pending, echo_prefix()) {
            Some(index) => {
                proof {
                    lemma_find_sub(st.pending, echo_prefix());
                }
                let r = echo_run(
                    EchoFilterState {
                        pending: st.pending.skip(index + 19),
                        stripping: true,
                        replacement: st.replacement,
                    },
                );
                (st.pending.take(index) + r.0, r.1)
            },
            None => if st.pending.len() > 18 {
                let e = st.pending.len() - 18;
                (
                    st.pending.take(e),
                    EchoFilterState {
                        pending: st.pending.skip(e),
                        stripping: false,
                        replacement: st.replacement,
                    },
                )
            } else {
                (Seq::empty(), st)
            },
        }
    }
}

/// Replaces the shell's echo of an injected, marker-wrapped command with the user's
/// command as it was typed, so that viewers do not see the marker plumbing.
pub struct MarkerEchoFilter {
    pending: Vec<u8>,
    stripping: bool,
    replacement: Option<Vec<u8>>,
}

pub open spec fn opt_bytes_view(o: Option<Vec<u8>>) -> Option<Seq<u8>> {
    match o {
        Some(v) => Some(v@),
        None => None,
    }
}

impl View for MarkerEchoFilter {
    type V = EchoFilterState;

    closed spec fn view(&self) -> EchoFilterState {
        EchoFilterState {
            pending: self.pending@,
            stripping: self.stripping,
            replacement: opt_bytes_view(self.replacement),
        }
    }
}

impl Default for MarkerEchoFilter {
    fn default() -> (f: Self)
        ensures
            f@ == (EchoFilterState { pending: Seq::empty(), stripping: false, replacement: None }),
    {
        MarkerEchoFilter { pending: Vec::new(), stripping: false, replacement: None }
    }
}

impl MarkerEchoFilter {
    /// Queues the text that replaces the next echoed command.
    pub fn queue_replacement(&mut self, command: &[u8])
        ensures
            final(self)@ == (EchoFilterState { replacement: Some(command@), ..old(self)@ }),
    {
        let mut r: Vec<u8> = Vec::new();
        append_range(&mut r, command, 0, command.len());
        assert(r@ =~= command@);
        self.replacement = Some(r);
    }

    /// Filters one chunk of terminal output.
    pub fn filter_chunk(&mut self, chunk: &[u8]) -> (out: Vec<u8>)
        ensures
            (out@, final(self)@) == echo_run(
                EchoFilterState { pending: old(self)@.pending + chunk@, ..old(self)@ },
            ),
    {
        append_range(&mut self.pending, chunk, 0, chunk.len());
        assert(chunk@.subrange(0, chunk@.len() as int) =~= chunk@);
        let ghost init = self@;
        let prefix = echo_prefix_bytes();
        let suffix = echo_suffix_bytes();
        let mut output: Vec<u8> = Vec::new();
        let mut done = false;
        while !done
            invariant
                prefix@ == echo_prefix(),
                suffix@ == echo_suffix(),
                !done ==> echo_run(init) == (output@ + echo_run(self@).0, echo_run(self@).1),
                done ==> echo_run(init) == (output@, self@),
            decreases self.pending@.len() + if done { 0int } else { 1int },
        {
            let ghost before = self@;
            let ghost out_before = output@;
            let _plen = self.pending.len();
            proof {
                lemma_find_sub(before.pending, echo_suffix());
                lemma_find_sub(before.pending, echo_prefix());
            }
            if self.stripping {
                match find_subsequence(self.pending.as_slice(), suffix.as_slice()) {
                    Some(index) => {
                        let se = index + 20;
                        let de = skip_line_breaks(self.pending.as_slice(), se);
                        match self.replacement.take() {
                            Some(rep) => {
                                append_range(&mut output, rep.as_slice(), 0, rep.len());
                                assert(rep@.subrange(0, rep@.len() as int) =~= rep@);
                                append_range(&mut output, self.pending.as_slice(), se, de);
                            },
                            None => {},
                        }
                        let tail = self.pending.split_off(de);
                        self.pending = tail;
                        self.stripping = false;
                        proof {
                            let emitted = match before.replacement {
                                Some(r) => r + before.pending.subrange(se as int, de as int),
                                None => Seq::empty(),
                            };
                            assert(output@ =~= out_before + emitted);
                            assert(self@ == EchoFilterState {
                                pending: before.pending.skip(de as int),
                                stripping: false,
                                replacement: None,
                            });
                            assert(output@ + echo_run(self@).0 =~= out_before + (emitted
                                + echo_run(self@).0));
                        }
                    },
                    None => {
                        done = true;
                        assert(output@ =~= output@ + Seq::<u8>::empty());
                    },
                }
            } else {
                match find_subsequence(self.pending.as_slice(), prefix.as_slice()) {
                    Some(index) => {
                        append_range(&mut output, self.pending.as_slice(), 0, index);
                        let tail = self.pending.split_off(index + 19);
                        self.pending = tail;
                        self.stripping = true;
                        proof {
                            assert(before.pending.subrange(0, index as int) =~= before.pending.take(
                                index as int,
                            ));
                            assert(output@ + echo_run(self@).0 =~= out_before + (
                            before.pending.take(index as int) + echo_run(self@).0));
                        }
                    },
                    None => {
                        if self.pending.len() > 18 {
                            let emit_len = self.pending.len() - 18;
                            append_range(&mut output, self.pending.as_slice(), 0, emit_len);
                            let tail = self.pending.split_off(emit_len);
                            self.pending = tail;
                            assert(before.pending.subrange(0, emit_len as int) =~= before.pending.take(
                                emit_len as int,
                            ));
                        } else {
                            assert(output@ =~= output@ + Seq::<u8>::empty());
                        }
                        done = true;
                    },
                }
            }
        }
        output
    }

    /// Flushes what is left at the end of the stream: nothing while inside an echo,
    /// otherwise the kept bytes.
    pub fn finish(&mut self) -> (out: Vec<u8>)
        ensures
            old(self)@.stripping ==> out@ == Seq::<u8>::empty() && final(self)@ == old(self)@,
            !old(self)@.stripping ==> out@ == old(self)@.pending && final(self)@ == (EchoFilterState {
                pending: Seq::empty(),
                ..old(self)@
            }),
    {
        if self.stripping {
            Vec::new()
        } else {
            let all = self.pending.split_off(0);
            assert(self.pending@ =~= Seq::<u8>::empty());
            all
        }
    }
}

// ── Marker sequence filter ───────────────────────────────────────────────────

/// The smaller of two optional positions.
pub open spec fn min_position(a: Option<int>, b: Option<int>) -> Option<int> {
    match (a, b) {
        (Some(x), Some(y)) => Some(if x <= y { x } else { y }),
        (Some(x), None) => Some(x),
        (None, Some(y)) => Some(y),
        (None, None) => None,
    }
}

/// Runs the marker filter on its pending bytes until it needs more input: the bytes it
/// emits and the bytes it keeps.
///
/// From the first `ESC _ BEGIN_` or `ESC _ END_`, everything up to and including the
/// next `ESC \` is dropped; if that terminator has not arrived yet, the bytes from the
/// marker on are kept. With no marker start in sight, all but the last 7 bytes (which
/// may start one) are emitted.
pub open spec fn sequence_run(pending: Seq<u8>) -> (Seq<u8>, Seq<u8>)
    decreases pending.len(),
{
    match min_position(find_sub(pending, apc_begin()), find_sub(pending, apc_end())) {
        Some(index) => {
            proof {
                lemma_find_sub(pending, apc_begin());
                lemma_find_sub(pending, apc_end());
            }
            match find_sub(pending.skip(index + 1), apc_term()) {
                Some(rel) => {
                    proof {
                        lemma_find_sub(pending.skip(index + 1), apc_term());
                    }
                    let consumed = index + 1 + rel + 2;
                    let r = sequence_run(pending.skip(consumed));
                    (pending.take(index) + r.0, r.1)
                },
                None => (pending.take(index), pending.skip(index)),
            }
        },
        None => if pending.len() > 7 {
            (pending.take(pending.len() - 7), pending.skip(pending.len() - 7))
        } else {
            (Seq::empty(), pending)
        },
    }
}

/// Removes the APC marker sequences themselves from terminal output.
pub struct MarkerSequenceFilter {
    pending: Vec<u8>,
}

impl View for MarkerSequenceFilter {
    type V = Seq<u8>;

    closed spec fn view(&self) -> Seq<u8> {
        self.pending@
    }
}

impl Default for MarkerSequenceFilter {
    fn default() -> (f: Self)
        ensures
            f@ == Seq::<u8>::empty(),
    {
        MarkerSequenceFilter { pending: Vec::new() }
    }
}

impl MarkerSequenceFilter {
    /// Filters one chunk of terminal output.
    pub fn filter_chunk(&mut self, chunk: &[u8]) -> (out: Vec<u8>)
        ensures
            (out@, final(self)@) == sequence_run(old(self)@ + chunk@),
    {
        append_range(&mut self.pending, chunk, 0, chunk.len());
        assert(chunk@.subrange(0, chunk@.len() as int) =~= chunk@);
        let ghost init = self@;
        let begin = apc_begin_bytes();
        let end = apc_end_bytes();
        let term = apc_term_bytes();
        let mut output: Vec<u8> = Vec::new();
        let mut done = false;
        while !done
            invariant
                begin@ == apc_begin(),
                end@ == apc_end(),
                term@ == apc_term(),
                !done ==> sequence_run(init) == (output@ + sequence_run(self@).0, sequence_run(
                    self@,
                ).1),
                done ==> sequence_run(init) == (output@, self@),
            decreases self.pending@.len() + if done { 0int } else { 1int },
        {
            let ghost before = self@;
            let ghost out_before = output@;
            let _plen = self.pending.len();
            proof {
                lemma_find_sub(before, apc_begin());
                lemma_find_sub(before, apc_end());
            }
            let a = find_subsequence(self.pending.as_slice(), begin.as_slice());
            let b = find_subsequence(self.pending.as_slice(), end.as_slice());
            let start = match (a, b) {
                (Some(x), Some(y)) => Some(if x <= y { x } else { y }),
                (Some(x), None) => Some(x),
                (None, Some(y)) => Some(y),
                (None, None) => None,
            };
            match start {
                Some(index) => {
                    append_range(&mut output, self.pending.as_slice(), 0, index);
                    assert(before.subrange(0, index as int) =~= before.take(index as int));
                    let rest = &self.pending.as_slice()[index + 1..self.pending.len()];
                    assert(rest@ =~= before.skip(index + 1));
                    match find_subsequence(rest, term.as_slice()) {
                        Some(rel) => {
                            proof {
                                lemma_find_sub(rest@, apc_term());
                            }
                            let consumed = index + 1 + rel + 2;
                            let tail = self.pending.split_off(consumed);
                            self.pending = tail;
                            assert(output@ + sequence_run(self@).0 =~= out_before + (before.take(
                                index as int,
                            ) + sequence_run(self@).0));
                        },
                        None => {
                            let tail = self.pending.split_off(index);
                            self.pending = tail;
                            done = true;
                        },
                    }
                },
                None => {
                    if self.pending.len() > 7 {
                        let emit_len = self.pending.len() - 7;
                        append_range(&mut output, self.pending.as_slice(), 0, emit_len);
                        let tail = self.pending.split_off(emit_len);
                        self.pending = tail;
                        assert(before.subrange(0, emit_len as int) =~= before.take(
                            emit_len as int,
                        ));
                    } else {
                        assert(output@ =~= output@ + Seq::<u8>::empty());
                    }
                    done = true;
                },
            }
        }
        output
    }

    /// Flushes the kept bytes at the end of the stream.
    pub fn finish(&mut self) -> (out: Vec<u8>)
        ensures
            out@ == old(self)@,
            final(self)@ == Seq::<u8>::empty(),
    {
        let all = self.pending.split_off(0);
        assert(self.pending@ =~= Seq::<u8>::empty());
        all
    }
}

// ── Terminal output filter ───────────────────────────────────────────────────

/// The echo filter followed by the marker filter.
pub struct TerminalOutputFilter {
    echo: MarkerEchoFilter,
    markers: MarkerSequenceFilter,
}

impl View for TerminalOutputFilter {
    type V = (EchoFilterState, Seq<u8>);

    closed spec fn view(&self) -> (EchoFilterState, Seq<u8>) {
        (self.echo@, self.markers@)
    }
}

impl Default for TerminalOutputFilter {
    fn default() -> (f: Self)
        ensures
            f@ == (EchoFilterState { pending: Seq::empty(), stripping: false, replacement: None }, Seq::<u8>::empty()),
    {
        TerminalOutputFilter { echo: MarkerEchoFilter::default(), markers: MarkerSequenceFilter::default() }
    }
}

impl TerminalOutputFilter {
    /// Queues the text that replaces the next echoed command.
    pub fn queue_replacement(&mut self, command: &[u8])
        ensures
            final(self)@.0 == (EchoFilterState { replacement: Some(command@), ..old(self)@.0 }),
            final(self)@.1 == old(self)@.1,
    {
        self.echo.queue_replacement(command);
    }

    /// Filters one chunk of terminal output through both filters.
    pub fn filter_chunk(&mut self, chunk: &[u8]) -> (out: Vec<u8>)
        ensures
            ({
                let e = echo_run(EchoFilterState { pending: old(self)@.0.pending + chunk@, ..old(self)@.0 });
                let m = sequence_run(old(self)@.1 + e.0);
                out@ == m.0 && final(self)@ == (e.1, m.1)
            }),
    {
        let echoed = self.echo.filter_chunk(chunk);
        self.markers.filter_chunk(echoed.as_slice())
    }

    /// Flushes both filters at the end of the stream.
    pub fn finish(&mut self) -> (out: Vec<u8>)
        ensures
            ({
                let echoed = if old(self)@.0.stripping { Seq::<u8>::empty() } else { old(self)@.0.pending };
                let m = sequence_run(old(self)@.1 + echoed);
                out@ == m.0 + m.1 && final(self)@.1 == Seq::<u8>::empty()
            }),
            old(self)@.0.stripping ==> final(self)@.0 == old(self)@.0,
            !old(self)@.0.stripping ==> final(self)@.0 == (EchoFilterState {
                pending: Seq::empty(),
                ..old(self)@.0
            }),
    {
        let echoed = self.echo.finish();
        let mut output = self.markers.filter_chunk(echoed.as_slice());
        let rest = self.markers.finish();
        append_range(&mut output, rest.as_slice(), 0, rest.len());
        assert(rest@.subrange(0, rest@.len() as int) =~= rest@);
        output
    }
}

// ── Snapshot sanitising ─────────────────────────────────────────────────────

/// Reads the echo of a marker-wrapped command at the start of `bytes` (which is
/// expected to begin with `echo_prefix()`): the user's command, how many bytes the
/// echo spans (with the line breaks after it), and those line breaks.
///
/// The echo reads `printf '\033_BEGIN_<64 hex>\033\\'; <command>; __shush_exit=$?;
/// printf '\033_END_<the same 64 hex>_%s\033\\' "$__shush_exit"; unset __shush_exit`.
pub open spec fn extract_wrapped(bytes: Seq<u8>) -> Option<(Seq<u8>, int, Seq<u8>)> {
    let pe = 19int;
    let ne = pe + 64;
    if bytes.len() < ne || !all_hex(bytes.subrange(pe, ne)) {
        None
    } else {
        match find_sub(bytes.skip(ne), echo_middle()) {
            None => None,
            Some(mi) => {
                let cs = ne + mi + 9;
                match find_sub(bytes.skip(cs), echo_end_prefix()) {
                    None => None,
                    Some(ei) => {
                        let epi = cs + ei;
                        let ens = epi + 36;
                        let ene = ens + 64;
                        if bytes.len() < ene || !all_hex(bytes.subrange(ens, ene))
                            || bytes.subrange(ens, ene) != bytes.subrange(pe, ne) {
                            None
                        } else {
                            let se = ene + 46;
                            if bytes.len() < se || bytes.subrange(ene, se) != echo_end_suffix() {
                                None
                            } else {
                                let consumed = se + count_line_breaks(bytes, se);
                                Some((bytes.subrange(cs, epi), consumed, bytes.subrange(se, consumed)))
                            }
                        }
                    },
                }
            },
        }
    }
}

/// A recognised echo spans at least its fixed parts, and lies inside `bytes`.
pub proof fn lemma_extract_wrapped_bounds(bytes: Seq<u8>)
    ensures
        match extract_wrapped(bytes) {
            Some(r) => 0 < r.1 <= bytes.len(),
            None => true,
        },
{
    let ne = 83int;
    if bytes.len() >= ne {
        lemma_find_sub(bytes.skip(ne), echo_middle());
        match find_sub(bytes.skip(ne), echo_middle()) {
            Some(mi) => {
                let cs = ne + mi + 9;
                lemma_find_sub(bytes.skip(cs), echo_end_prefix());
                match find_sub(bytes.skip(cs), echo_end_prefix()) {
                    Some(ei) => {
                        let se = cs + ei + 36 + 64 + 46;
                        if se <= bytes.len() {
                            lemma_count_line_breaks_bound(bytes, se);
                        }
                    },
                    None => {},
                }
            },
            None => {},
        }
    }
}

fn all_hex_in(s: &[u8], a: usize, b: usize) -> (r: bool)
    requires
        a <= b <= s@.len(),
    ensures
        r == all_hex(s@.subrange(a as int, b as int)),
{
    let mut k = a;
    while k < b
        invariant
            a <= k <= b <= s@.len(),
            forall|j: int| a <= j < k ==> crate::marker::is_hex_digit(#[trigger] s@[j]),
        decreases b - k,
    {
        let c = s[k];
        if !((0x30 <= c && c <= 0x39) || (0x61 <= c && c <= 0x66) || (0x41 <= c && c <= 0x46)) {
            assert(s@.subrange(a as int, b as int)[k - a] == c);
            return false;
        }
        k += 1;
    }
    assert forall|j: int| 0 <= j < b - a implies crate::marker::is_hex_digit(
        #[trigger] s@.subrange(a as int, b as int)[j],
    ) by {
        assert(s@.subrange(a as int, b as int)[j] == s@[a + j]);
    }
    true
}

fn same_bytes(s: &[u8], a: usize, b: usize, len: usize) -> (r: bool)
    requires
        a + len <= s@.len(),
        b + len <= s@.len(),
    ensures
        r == (s@.subrange(a as int, a + len) == s@.subrange(b as int, b + len)),
{
    let _n = s.len();
    let mut k: usize = 0;
    while k < len
        invariant
            k <= len,
            s@.len() <= usize::MAX,
            a + len <= s@.len(),
            b + len <= s@.len(),
            forall|j: int| 0 <= j < k ==> #[trigger] s@[a + j] == s@[b + j],
        decreases len - k,
    {
        if s[a + k] != s[b + k] {
            assert(s@.subrange(a as int, a + len)[k as int] != s@.subrange(b as int, b + len)[k as int]);
            return false;
        }
        k += 1;
    }
    assert forall|j: int| 0 <= j < len implies #[trigger] s@.subrange(a as int, a + len)[j]
        == s@.subrange(b as int, b + len)[j] by {
        assert(s@[a + j] == s@[b + j]);
    }
    assert(s@.subrange(a as int, a + len) =~= s@.subrange(b as int, b + len));
    true
}

/// Reads the echo of a marker-wrapped command at the start of `bytes`: the user's
/// command, how many bytes the echo spans, and the line breaks after it.
pub fn extract_wrapped_command(bytes: &[u8]) -> (r: Option<(Vec<u8>, usize, Vec<u8>)>)
    ensures
        match r {
            Some(t) => extract_wrapped(bytes@) == Some((t.0@, t.1 as int, t.2@)),
            None => extract_wrapped(bytes@) is None,
        },
{
    let len = bytes.len();
    let prefix_end: usize = 19;
    let nonce_end: usize = prefix_end + 64;
    if len < nonce_end {
        return None;
    }
    if !all_hex_in(bytes, prefix_end, nonce_end) {
        return None;
    }
    let middle = echo_middle_bytes();
    let after_nonce = &bytes[nonce_end..len];
    assert(after_nonce@ =~= bytes@.skip(nonce_end as int));
    proof {
        lemma_find_sub(after_nonce@, echo_middle());
    }
    let middle_index = match find_subsequence(after_nonce, middle.as_slice()) {
        Some(i) => i + nonce_end,
        None => {
            return None;
        },
    };
    let command_start = middle_index + 9;
    let end_prefix = echo_end_prefix_bytes();
    let after_command = &bytes[command_start..len];
    assert(after_command@ =~= bytes@.skip(command_start as int));
    proof {
        lemma_find_sub(after_command@, echo_end_prefix());
    }
    let end_prefix_index = match find_subsequence(after_command, end_prefix.as_slice()) {
        Some(i) => i + command_start,
        None => {
            return None;
        },
    };
    let mut command: Vec<u8> = Vec::new();
    append_range(&mut command, bytes, command_start, end_prefix_index);
    assert(command@ =~= bytes@.subrange(command_start as int, end_prefix_index as int));
    let end_nonce_start = end_prefix_index + 36;
    if len - end_nonce_start < 64 {
        return None;
    }
    let end_nonce_end = end_nonce_start + 64;
    if !all_hex_in(bytes, end_nonce_start, end_nonce_end) {
        return None;
    }
    if !same_bytes(bytes, end_nonce_start, prefix_end, 64) {
        return None;
    }
    let suffix = echo_end_suffix_bytes();
    if len - end_nonce_end < 46 {
        return None;
    }
    let suffix_end = end_nonce_end + 46;
    if !same_bytes_as(bytes, end_nonce_end, suffix.as_slice()) {
        return None;
    }
    let consumed = skip_line_breaks(bytes, suffix_end);
    let mut trailing: Vec<u8> = Vec::new();
    append_range(&mut trailing, bytes, suffix_end, consumed);
    assert(trailing@ =~= bytes@.subrange(suffix_end as int, consumed as int));
    Some((command, consumed, trailing))
}

fn same_bytes_as(s: &[u8], a: usize, pat: &[u8]) -> (r: bool)
    requires
        a + pat@.len() <= s@.len(),
    ensures
        r == (s@.subrange(a as int, a + pat@.len()) == pat@),
{
    let _n = s.len();
    let mut k: usize = 0;
    while k < pat.len()
        invariant
            k <= pat@.len(),
            s@.len() <= usize::MAX,
            a + pat@.len() <= s@.len(),
            forall|j: int| 0 <= j < k ==> s@[a + j] == #[trigger] pat@[j],
        decreases pat@.len() - k,
    {
        if s[a + k] != pat[k] {
            assert(s@.subrange(a as int, a + pat@.len())[k as int] != pat@[k as int]);
            return false;
        }
        k += 1;
    }
    assert(s@.subrange(a as int, a + pat@.len()) =~= pat@);
    true
}

/// Replaces every echo of a marker-wrapped command in `b` with the user's command
/// (and the line breaks after the echo). From the first prefix whose echo cannot be
/// read, the bytes are kept as they are.
pub open spec fn sanitized(b: Seq<u8>) -> Seq<u8>
    decreases b.len(),
{
    match find_sub(b, echo_prefix()) {
        None => b,
        Some(i) => {
            proof {
                lemma_find_sub(b, echo_prefix());
                lemma_extract_wrapped_bounds(b.skip(i));
            }
            match extract_wrapped(b.skip(i)) {
                Some(t) => b.take(i) + t.0 + t.2 + sanitized(b.skip(i + t.1)),
                None => b,
            }
        },
    }
}

/// Replaces the echoes of marker-wrapped commands in a captured screen with the
/// user's commands.
#[verifier::rlimit(40)]
pub fn sanitize_marker_echoes(bytes: &[u8]) -> (out: Vec<u8>)
    ensures
        out@ == sanitized(bytes@),
{
    let len = bytes.len();
    let prefix = echo_prefix_bytes();
    let mut output: Vec<u8> = Vec::new();
    let mut cursor: usize = 0;
    let mut done = false;
    assert(bytes@.skip(0) =~= bytes@);
    assert(output@ + sanitized(bytes@) =~= sanitized(bytes@));
    while !done
        invariant
            len == bytes@.len(),
            prefix@ == echo_prefix(),
            cursor <= len,
            !done ==> sanitized(bytes@) == output@ + sanitized(bytes@.skip(cursor as int)),
            done ==> sanitized(bytes@) == output@,
        decreases len - cursor + if done { 0int } else { 1int },
    {
        let rest = &bytes[cursor..len];
        let ghost r = bytes@.skip(cursor as int);
        assert(rest@ =~= r);
        proof {
            lemma_find_sub(r, echo_prefix());
        }
        match find_subsequence(rest, prefix.as_slice()) {
            Some(index) => {
                let start = cursor + index;
                append_range(&mut output, bytes, cursor, start);
                let at = &bytes[start..len];
                assert(at@ =~= r.skip(index as int));
                proof {
                    lemma_extract_wrapped_bounds(at@);
                }
                match extract_wrapped_command(at) {
                    Some(t) => {
                        let (command, consumed, trailing) = t;
                        let ghost out_before = output@;
                        append_range(&mut output, command.as_slice(), 0, command.len());
                        append_range(&mut output, trailing.as_slice(), 0, trailing.len());
                        assert(command@.subrange(0, command@.len() as int) =~= command@);
                        assert(trailing@.subrange(0, trailing@.len() as int) =~= trailing@);
                        assert(bytes@.subrange(cursor as int, start as int) =~= r.take(index as int));
                        assert(r.skip(index + consumed) =~= bytes@.skip(start + consumed));
                        cursor = start + consumed;
                        assert(output@ + sanitized(bytes@.skip(cursor as int)) =~= (out_before
                            + command@ + trailing@) + sanitized(bytes@.skip(cursor as int)));
                    },
                    None => {
                        append_range(&mut output, bytes, start, len);
                        assert(bytes@.subrange(cursor as int, start as int) + bytes@.subrange(
                            start as int,
                            len as int,
                        ) =~= r);
                        cursor = len;
                        done = true;
                    },
                }
            },
            None => {
                append_range(&mut output, bytes, cursor, len);
                assert(bytes@.subrange(cursor as int, len as int) =~= r);
                cursor = len;
                done = true;
            },
        }
    }
    output
}

// ── Viewer stream ────────────────────────────────────────────────────────────

/// What viewers of a session's terminal receive: a chunk of filtered output, or the
/// end of the stream.
#[derive(Clone, Debug)]
pub enum FeEvent {
    Chunk(Vec<u8>),
    Closed,
}

/// How many bytes of recent output are kept for viewers that join late.
pub open spec fn replay_limit() -> nat {
    131072
}

/// The last `n` bytes of `s` (all of `s` when it is shorter).
pub open spec fn keep_last(s: Seq<u8>, n: nat) -> Seq<u8> {
    if s.len() > n {
        s.skip(s.len() - n)
    } else {
        s
    }
}

/// Appends `chunk` to the replay buffer and drops its oldest bytes beyond the limit.
pub fn append_replay(replay: &mut Vec<u8>, chunk: &[u8])
    ensures
        final(replay)@ == keep_last(old(replay)@ + chunk@, replay_limit()),
{
    append_range(replay, chunk, 0, chunk.len());
    assert(chunk@.subrange(0, chunk@.len() as int) =~= chunk@);
    let n = replay.len();
    if n > 131072 {
        let tail = replay.split_off(n - 131072);
        *replay = tail;
    }
}

/// The replay buffer holds the most recent bytes of the stream, at most `n` of them, and
/// trimming it as chunks arrive keeps what trimming once at the end would: appending `a`
/// and trimming, then appending `b` and trimming, gives what appending both and trimming
/// gives.
pub proof fn lemma_replay_keeps_recent_bytes(r: Seq<u8>, a: Seq<u8>, b: Seq<u8>, n: nat)
    ensures
        keep_last(r + a, n).len() <= n,
        keep_last(r + a, n) == (r + a).skip((r + a).len() - keep_last(r + a, n).len()),
        (r + a).len() <= n ==> keep_last(r + a, n) == r + a,
        keep_last(keep_last(r + a, n) + b, n) == keep_last(r + a + b, n),
{
    let x = r + a;
    let k = keep_last(x, n);
    if x.len() > n {
        assert(k =~= x.skip(x.len() - n));
    } else {
        assert(x.skip(0) =~= x);
    }
    assert(x.skip(x.len() - k.len()) =~= k);
    let y = k + b;
    let z = x + b;
    assert(z =~= r + a + b);
    if z.len() > n {
        if y.len() > n {
            assert(y.skip(y.len() - n) =~= z.skip(z.len() - n));
        } else {
            assert(y =~= z.skip(z.len() - n));
        }
    } else {
        assert(k =~= x);
    }
}

/// The character of the standard base64 alphabet for a 6-bit value: `A`–`Z`, `a`–`z`,
/// `0`–`9`, `+`, `/`.
pub open spec fn base64_digit(v: int) -> char {
    if v < 26 {
        (0x41 + v) as char
    } else if v < 52 {
        (0x61 + v - 26) as char
    } else if v < 62 {
        (0x30 + v - 52) as char
    } else if v == 62 {
        '+'
    } else {
        '/'
    }
}

/// The standard base64 encoding of `data` (RFC 4648, with `=` padding): each group of
/// three bytes becomes four characters of six bits each, high bits first; a last group
/// of one or two bytes is padded with zero bits and then with `=` to four characters.
pub open spec fn base64_standard(data: Seq<u8>) -> Seq<char>
    decreases data.len(),
{
    if data.len() == 0 {
        seq![]
    } else if data.len() == 1 {
        let a = data[0] as int;
        seq![base64_digit(a / 4), base64_digit((a % 4) * 16), '=', '=']
    } else if data.len() == 2 {
        let (a, b) = (data[0] as int, data[1] as int);
        seq![base64_digit(a / 4), base64_digit((a % 4) * 16 + b / 16), base64_digit((b % 16) * 4), '=']
    } else {
        let (a, b, c) = (data[0] as int, data[1] as int, data[2] as int);
        seq![
            base64_digit(a / 4),
            base64_digit((a % 4) * 16 + b / 16),
            base64_digit((b % 16) * 4 + c / 64),
            base64_digit(c % 64),
        ] + base64_standard(data.skip(3))
    }
}

/// Encodes a chunk of terminal output for a viewer, with
/// `base64::engine::general_purpose::STANDARD.encode`: the crate's standard engine is
/// the RFC 4648 alphabet with padding, which the contract states, together with the
/// padded length that the crate computes (`encoded_len`); the crate panics when that
/// length overflows `usize`, so such inputs are left out.
#[verifier::external_body]
pub fn encode_terminal_chunk(data: &[u8]) -> (s: String)
    requires
        4 * ((data@.len() + 2) / 3) <= usize::MAX,
    ensures
        s@ == base64_standard(data@),
        s@.len() == 4 * ((data@.len() + 2) / 3),
{
    base64::engine::general_purpose::STANDARD.encode(data)
}

/// The snapshot sent to a viewer when it joins: the captured screen with the echoes of
/// marker-wrapped commands replaced by the commands, base64-encoded.
pub fn snapshot_payload(captured: &[u8]) -> (s: Option<String>)
    ensures
        match s {
            Some(t) => t@ == base64_standard(sanitized(captured@)),
            None => 4 * ((sanitized(captured@).len() + 2) / 3) > usize::MAX,
        },
{
    let clean = sanitize_marker_echoes(captured);
    let n = clean.len();
    let chunks = n / 3 + if n % 3 == 0 { 0 } else { 1 };
    assert(chunks == (n + 2) / 3) by (nonlinear_arith)
        requires
            chunks == n / 3 + if n % 3 == 0 { 0int } else { 1int },
    ;
    assert(4 * chunks <= usize::MAX <==> chunks <= usize::MAX / 4) by (nonlinear_arith);
    if chunks > usize::MAX / 4 {
        return None;
    }
    Some(encode_terminal_chunk(clean.as_slice()))
}


// ── Pump ─────────────────────────────────────────────────────────────────────

/// What one call of `TerminalOutputFilter::filter_chunk` emits for `chunk` from state
/// `st`, and the state it leaves.
pub open spec fn terminal_step(st: (EchoFilterState, Seq<u8>), chunk: Seq<u8>) -> (
    Seq<u8>,
    (EchoFilterState, Seq<u8>),
) {
    let e = echo_run(EchoFilterState { pending: st.0.pending + chunk, ..st.0 });
    let m = sequence_run(st.1 + e.0);
    (m.0, (e.1, m.1))
}

/// What `TerminalOutputFilter::finish` emits from state `st`, and the state it leaves.
pub open spec fn terminal_flush(st: (EchoFilterState, Seq<u8>)) -> (Seq<u8>, (EchoFilterState, Seq<u8>)) {
    let echoed = if st.0.stripping {
        Seq::<u8>::empty()
    } else {
        st.0.pending
    };
    let m = sequence_run(st.1 + echoed);
    (
        m.0 + m.1,
        (
            if st.0.stripping {
                st.0
            } else {
                EchoFilterState { pending: Seq::empty(), ..st.0 }
            },
            Seq::<u8>::empty(),
        ),
    )
}

/// What the reader of a session's terminal got from it.
pub enum TerminalRead {
    /// Bytes of output.
    Bytes(Vec<u8>),
    /// The end of the stream.
    End,
    /// Nothing yet (the read would block, or was interrupted).
    Again,
    /// A read error.
    Failed,
}

/// What the pump decides after a read: a chunk of filtered output to hand to viewers
/// and keep for replay (never empty), whether the stream is closed (viewers are then
/// told, and reading stops), and whether to wait a moment before reading again.
pub struct PumpStep {
    pub chunk: Option<Vec<u8>>,
    pub closed: bool,
    pub wait: bool,
}

/// Carries a session's terminal output to its viewers: the output filter and the
/// replay buffer of the most recent filtered output.
pub struct TerminalPump {
    filter: TerminalOutputFilter,
    replay: Vec<u8>,
}

/// The state of a pump: its filter's and its replay buffer.
pub struct TerminalPumpView {
    pub filter: (EchoFilterState, Seq<u8>),
    pub replay: Seq<u8>,
}

impl View for TerminalPump {
    type V = TerminalPumpView;

    closed spec fn view(&self) -> TerminalPumpView {
        TerminalPumpView { filter: self.filter@, replay: self.replay@ }
    }
}

/// `out` as a chunk for viewers: none when it is empty.
pub open spec fn chunk_of(out: Seq<u8>) -> Option<Seq<u8>> {
    if out.len() == 0 {
        None
    } else {
        Some(out)
    }
}

/// The replay buffer after `out` is handed on: unchanged when `out` is empty.
pub open spec fn replay_after(replay: Seq<u8>, out: Seq<u8>) -> Seq<u8> {
    if out.len() == 0 {
        replay
    } else {
        keep_last(replay + out, replay_limit())
    }
}

impl TerminalPump {
    pub fn new() -> (p: Self)
        ensures
            p@ == (TerminalPumpView {
                filter: (
                    EchoFilterState { pending: Seq::empty(), stripping: false, replacement: None },
                    Seq::<u8>::empty(),
                ),
                replay: Seq::empty(),
            }),
    {
        TerminalPump { filter: TerminalOutputFilter::default(), replay: Vec::new() }
    }

    /// Queues the text that replaces the next echoed command.
    pub fn queue_replacement(&mut self, command: &[u8])
        ensures
            final(self)@ == (TerminalPumpView {
                filter: (EchoFilterState { replacement: Some(command@), ..old(self)@.filter.0 }, old(self)@.filter.1),
                replay: old(self)@.replay,
            }),
    {
        self.filter.queue_replacement(command);
    }

    /// A copy of the replay buffer.
    pub fn replay_bytes(&self) -> (r: Vec<u8>)
        ensures
            r@ == self@.replay,
    {
        let mut r: Vec<u8> = Vec::new();
        append_range(&mut r, self.replay.as_slice(), 0, self.replay.len());
        assert(self.replay@.subrange(0, self.replay@.len() as int) =~= self.replay@);
        r
    }

    /// Takes one read: output is filtered, and what comes out is kept for replay and
    /// handed on; at the end of the stream the filter is flushed the same way and the
    /// stream is closed; after a read error it is closed with nothing more; when there
    /// was nothing to read, the reader waits and reads again.
    pub fn on_read(&mut self, read: TerminalRead) -> (step: PumpStep)
        ensures
            match read {
                TerminalRead::Bytes(b) => {
                    let (out, f) = terminal_step(old(self)@.filter, b@);
                    &&& opt_bytes_view(step.chunk) == chunk_of(out)
                    &&& !step.closed && !step.wait
                    &&& final(self)@ == (TerminalPumpView { filter: f, replay: replay_after(old(self)@.replay, out) })
                },
                TerminalRead::End => {
                    let (out, f) = terminal_flush(old(self)@.filter);
                    &&& opt_bytes_view(step.chunk) == chunk_of(out)
                    &&& step.closed && !step.wait
                    &&& final(self)@ == (TerminalPumpView { filter: f, replay: replay_after(old(self)@.replay, out) })
                },
                TerminalRead::Again => step.chunk is None && !step.closed && step.wait && final(self)@ == old(self)@,
                TerminalRead::Failed => step.chunk is None && step.closed && !step.wait && final(self)@ == old(self)@,
            },
    {
        let (out, closed) = match read {
            TerminalRead::Bytes(b) => (self.filter.filter_chunk(b.as_slice()), false),
            TerminalRead::End => (self.filter.finish(), true),
            TerminalRead::Again => {
                return PumpStep { chunk: None, closed: false, wait: true };
            },
            TerminalRead::Failed => {
                return PumpStep { chunk: None, closed: true, wait: false };
            },
        };
        if out.len() == 0 {
            return PumpStep { chunk: None, closed, wait: false };
        }
        append_replay(&mut self.replay, out.as_slice());
        PumpStep { chunk: Some(out), closed, wait: false }
    }
}

// ── Viewers ──────────────────────────────────────────────────────────────────

/// Something that happens to the viewers of a session's terminal.
#[derive(Debug, Clone, Copy, PartialEq, Eq, Structural)]
pub enum ViewerEvent {
    /// A viewer joined.
    Joined,
    /// A viewer left.
    Left,
    /// The idle delay after the last viewer left has passed.
    IdleTimeout,
}

/// What to do about the terminal client after a viewer event.
#[derive(Debug, Clone, Copy, PartialEq, Eq, Structural)]
pub enum ViewerAction {
    /// Nothing.
    Keep,
    /// Cancel the pending idle check.
    CancelIdleCheck,
    /// Check again after the idle delay whether anyone is watching.
    ScheduleIdleCheck,
    /// Nobody is watching: shut the client down.
    TearDown,
}

/// How a viewer event changes the number of viewers, and what it calls for: a joining
/// viewer cancels the idle check; when the last viewer leaves (or one leaves none), an
/// idle check is scheduled; and at the idle check the client is shut down if there is
/// still nobody watching. The count never goes below zero.
pub fn viewers_step(count: usize, event: ViewerEvent) -> (r: (usize, ViewerAction))
    ensures
        match event {
            ViewerEvent::Joined => r == (if count < usize::MAX { (count + 1) as usize } else { count },
                ViewerAction::CancelIdleCheck),
            ViewerEvent::Left => r == (if count > 0 { (count - 1) as usize } else { 0 }, if count <= 1 {
                ViewerAction::ScheduleIdleCheck
            } else {
                ViewerAction::Keep
            }),
            ViewerEvent::IdleTimeout => r == (count, if count == 0 {
                ViewerAction::TearDown
            } else {
                ViewerAction::Keep
            }),
        },
{
    match event {
        ViewerEvent::Joined => (if count < usize::MAX { count + 1 } else { count }, ViewerAction::CancelIdleCheck),
        ViewerEvent::Left => (
            if count > 0 { count - 1 } else { 0 },
            if count <= 1 { ViewerAction::ScheduleIdleCheck } else { ViewerAction::Keep },
        ),
        ViewerEvent::IdleTimeout => (count, if count == 0 { ViewerAction::TearDown } else { ViewerAction::Keep }),
    }
}

} // verus!
