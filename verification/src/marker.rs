use vstd::prelude::*;

use crate::text::{push_chars, push_str, string_from_chars};

verus! {

// ── Hex digits ───────────────────────────────────────────────────────────────

/// An ASCII hexadecimal digit, either case.
pub open spec fn is_hex_digit(b: u8) -> bool {
    (0x30 <= b <= 0x39) || (0x61 <= b <= 0x66) || (0x41 <= b <= 0x46)
}

/// The value of a hex digit; any other byte counts as zero.
pub open spec fn hex_value(b: u8) -> u8 {
    if 0x30 <= b <= 0x39 {
        (b - 0x30) as u8
    } else if 0x61 <= b <= 0x66 {
        (b - 0x61 + 10) as u8
    } else if 0x41 <= b <= 0x46 {
        (b - 0x41 + 10) as u8
    } else {
        0
    }
}

/// The lower-case hex digit for a value below 16.
pub open spec fn hex_digit_char(v: int) -> char {
    if v < 10 {
        (0x30 + v) as char
    } else {
        (0x61 + v - 10) as char
    }
}

/// Two lower-case hex digits per byte, high nibble first.
pub open spec fn hex_lower(bytes: Seq<u8>) -> Seq<char> {
    Seq::new(
        2 * bytes.len(),
        |i: int|
            if i % 2 == 0 {
                hex_digit_char((bytes[i / 2] / 16) as int)
            } else {
                hex_digit_char((bytes[i / 2] % 16) as int)
            },
    )
}

/// Bytes from pairs of hex digits, high nibble first.
pub open spec fn decode_hex(h: Seq<u8>) -> Seq<u8> {
    Seq::new(
        h.len() / 2,
        |k: int| (hex_value(h[2 * k]) * 16 + hex_value(h[2 * k + 1])) as u8,
    )
}

/// Every byte is a hex digit.
pub open spec fn all_hex(s: Seq<u8>) -> bool {
    forall|k: int| 0 <= k < s.len() ==> is_hex_digit(#[trigger] s[k])
}

/// The ASCII bytes of characters below 128.
pub open spec fn ascii_bytes(s: Seq<char>) -> Seq<u8> {
    Seq::new(s.len(), |i: int| s[i] as u8)
}

fn hex_val(b: u8) -> (v: u8)
    ensures
        v == hex_value(b),
{
    if 0x30 <= b && b <= 0x39 {
        b - 0x30
    } else if 0x61 <= b && b <= 0x66 {
        b - 0x61 + 10
    } else if 0x41 <= b && b <= 0x46 {
        b - 0x41 + 10
    } else {
        0
    }
}

fn hex_digit(v: u8) -> (c: char)
    requires
        v < 16,
    ensures
        c == hex_digit_char(v as int),
{
    if v < 10 {
        (0x30u8 + v) as char
    } else {
        (0x61u8 + v - 10) as char
    }
}

// ── Nonce ────────────────────────────────────────────────────────────────────

/// 32-byte cryptographic nonce, hex-encoded.
#[derive(Debug, Clone, PartialEq, Eq)]
pub struct Nonce([u8; 32]);

impl View for Nonce {
    type V = Seq<u8>;

    closed spec fn view(&self) -> Seq<u8> {
        self.0@
    }
}

/// A nonce always holds exactly 32 bytes.
pub broadcast proof fn lemma_nonce_len(n: Nonce)
    ensures
        #[trigger] n@.len() == 32,
{
}

impl Nonce {
    /// The 64 lower-case hex digits of the nonce.
    pub fn hex(&self) -> (s: String)
        ensures
            s@ == hex_lower(self@),
    {
        let mut v: Vec<char> = Vec::new();
        let mut i: usize = 0;
        while i < 32
            invariant
                i <= 32,
                self@.len() == 32,
                v@ == hex_lower(self@.take(i as int)),
            decreases 32 - i,
        {
            let b = self.0[i];
            v.push(hex_digit(b / 16));
            v.push(hex_digit(b % 16));
            i += 1;
            assert(v@ =~= hex_lower(self@.take(i as int)));
        }
        assert(self@.take(32) =~= self@);
        string_from_chars(v.as_slice())
    }
}

/// Decodes the 64 hex digits that start at `start` into a nonce.
fn hex_decode_nonce(buf: &Vec<u8>, start: usize) -> (n: Nonce)
    requires
        start + 64 <= buf@.len(),
    ensures
        n@ == decode_hex(buf@.subrange(start as int, start + 64)),
{
    let ghost h = buf@.subrange(start as int, start + 64);
    let _len = buf.len();
    let mut bytes = [0u8; 32];
    let mut k: usize = 0;
    while k < 32
        invariant
            k <= 32,
            start + 64 <= buf@.len() <= usize::MAX,
            h == buf@.subrange(start as int, start + 64),
            bytes@.len() == 32,
            forall|j: int| 0 <= j < k ==> bytes@[j] == #[trigger] decode_hex(h)[j],
        decreases 32 - k,
    {
        let hi = hex_val(buf[start + 2 * k]);
        let lo = hex_val(buf[start + 2 * k + 1]);
        bytes[k] = hi * 16 + lo;
        k += 1;
    }
    assert(bytes@ =~= decode_hex(h));
    Nonce(bytes)
}

/// Outcome of the random source; the bytes it filled are unknown to the proof.
#[verifier::external_type_specification]
#[verifier::external_body]
pub struct ExRandomError(getrandom::Error);

/// Fills `dest` from the operating system's random source through `getrandom::getrandom`.
/// Nothing is claimed of the bytes, nor of whether the call succeeds.
#[verifier::external_body]
pub(crate) fn fill_random(dest: &mut [u8; 32]) -> Result<(), getrandom::Error> {
    getrandom::getrandom(dest)
}

/// A fresh nonce from the operating system's random source.
pub fn generate_nonce() -> Nonce {
    let mut bytes = [0u8; 32];
    let _ = fill_random(&mut bytes);
    Nonce(bytes)
}

// ── Marker injection ─────────────────────────────────────────────────────────

/// The shell command that prints the start marker, runs `command`, then prints the
/// end marker whatever the command's exit status, carrying that status:
/// `printf '\033_BEGIN_<hex>\033\\'; <command>; __shush_exit=$?;
/// printf '\033_END_<hex>_%s\033\\' "$__shush_exit"; unset __shush_exit`,
/// with the nonce in lower-case hex.
pub open spec fn wrapped_command(command: Seq<char>, nonce: Seq<u8>) -> Seq<char> {
    "printf '\\033_BEGIN_"@ + hex_lower(nonce) + "\\033\\\\'; "@ + command
        + "; __shush_exit=$?; printf '\\033_END_"@ + hex_lower(nonce)
        + "_%s\\033\\\\' \"$__shush_exit\"; unset __shush_exit"@
}

/// Wraps commands with Application Program Command (APC) markers so that command
/// boundaries are detectable in the tmux output stream: `ESC _ BEGIN_<nonce> ESC \`
/// before the command's output and `ESC _ END_<nonce>_<exit status> ESC \` after it,
/// printed whether the command succeeds or fails.
#[derive(Debug)]
pub struct MarkerInjector;

impl Default for MarkerInjector {
    fn default() -> (r: Self) {
        MarkerInjector
    }
}

impl MarkerInjector {
    pub fn new() -> (r: Self) {
        MarkerInjector
    }

    /// Wraps `command` with start/end markers containing a fresh nonce.
    pub fn inject(&self, command: &str) -> (r: (String, Nonce))
        ensures
            r.0@ == wrapped_command(command@, r.1@),
    {
        let nonce = generate_nonce();
        let wrapped = wrap_command(command, &nonce);
        (wrapped, nonce)
    }
}

/// Wraps `command` with start/end markers that carry `nonce`.
pub fn wrap_command(command: &str, nonce: &Nonce) -> (s: String)
    ensures
        s@ == wrapped_command(command@, nonce@),
{
    let hex = nonce.hex();
    let hex_chars = crate::text::chars_of(hex.as_str());
    let mut v: Vec<char> = Vec::new();
    push_str(&mut v, "printf '\\033_BEGIN_");
    push_chars(&mut v, hex_chars.as_slice());
    push_str(&mut v, "\\033\\\\'; ");
    push_str(&mut v, command);
    push_str(&mut v, "; __shush_exit=$?; printf '\\033_END_");
    push_chars(&mut v, hex_chars.as_slice());
    push_str(&mut v, "_%s\\033\\\\' \"$__shush_exit\"; unset __shush_exit");
    string_from_chars(v.as_slice())
}

// ── Marker detection ─────────────────────────────────────────────────────────

/// Events emitted by `MarkerDetector` when scanning a byte stream.
#[derive(Debug, Clone, PartialEq)]
pub enum MarkerEvent {
    Start(Nonce),
    End(Nonce),
}

/// A marker event with the nonce as its bytes.
pub enum MarkerEventView {
    Start(Seq<u8>),
    End(Seq<u8>),
}

impl View for MarkerEvent {
    type V = MarkerEventView;

    open spec fn view(&self) -> MarkerEventView {
        match self {
            MarkerEvent::Start(n) => MarkerEventView::Start(n@),
            MarkerEvent::End(n) => MarkerEventView::End(n@),
        }
    }
}

pub open spec fn events_view(evs: Seq<MarkerEvent>) -> Seq<MarkerEventView> {
    evs.map_values(|e: MarkerEvent| e@)
}

/// "BEGIN_"
pub open spec fn begin_tag() -> Seq<u8> {
    seq![0x42u8, 0x45, 0x47, 0x49, 0x4e, 0x5f]
}

/// "END_"
pub open spec fn end_tag() -> Seq<u8> {
    seq![0x45u8, 0x4e, 0x44, 0x5f]
}

/// The bytes of a complete marker: `ESC _ <tag> <hex of nonce> ESC \`.
pub open spec fn marker_bytes(tag: Seq<u8>, nonce: Seq<u8>) -> Seq<u8> {
    seq![0x1bu8, 0x5f] + tag + ascii_bytes(hex_lower(nonce)) + seq![0x1bu8, 0x5c]
}

/// Scans `buf` from position `i`, as the detector does: the events found, and the
/// position at which scanning stopped (the end of the buffer, or the start of a
/// marker that is not complete yet).
///
/// At an ESC with fewer than 72 bytes left, scanning stops. An ESC that is not
/// followed by `_` is skipped alone, so that a marker right after it is still seen; an
/// `ESC _` that does not go on with `BEGIN_` or `END_`, 64 hex digits and `ESC \` is
/// skipped as a pair. Any other byte is skipped alone.
pub open spec fn scan_markers(buf: Seq<u8>, i: int) -> (Seq<MarkerEventView>, int)
    decreases buf.len() - i,
{
    if i < 0 || i >= buf.len() {
        (seq![], i)
    } else if buf[i] != 0x1b {
        scan_markers(buf, i + 1)
    } else if i + 72 > buf.len() {
        (seq![], i)
    } else if buf[i + 1] != 0x5f {
        scan_markers(buf, i + 1)
    } else {
        let is_start = buf.subrange(i + 2, i + 8) == begin_tag();
        let is_end = !is_start && buf.subrange(i + 2, i + 6) == end_tag();
        if !is_start && !is_end {
            scan_markers(buf, i + 2)
        } else {
            let hs = i + 2 + if is_start { 6int } else { 4int };
            let he = hs + 64;
            if he + 2 > buf.len() {
                (seq![], i)
            } else if !all_hex(buf.subrange(hs, he)) || buf[he] != 0x1b || buf[he + 1] != 0x5c {
                scan_markers(buf, i + 2)
            } else {
                let nonce = decode_hex(buf.subrange(hs, he));
                let ev = if is_start {
                    MarkerEventView::Start(nonce)
                } else {
                    MarkerEventView::End(nonce)
                };
                let rest = scan_markers(buf, he + 2);
                (seq![ev] + rest.0, rest.1)
            }
        }
    }
}

/// What one `feed` does to a detector holding `buffer`: the events it reports and the
/// bytes it keeps for the next call.
pub open spec fn feed_result(buffer: Seq<u8>, bytes: Seq<u8>) -> (Seq<MarkerEventView>, Seq<u8>) {
    let all = buffer + bytes;
    let r = scan_markers(all, 0);
    (r.0, all.skip(r.1))
}

/// Scans a byte stream for APC markers produced by `MarkerInjector`.
///
/// Keeps the unfinished tail across `feed()` calls so that markers split across
/// chunk boundaries are detected.
#[derive(Debug)]
pub struct MarkerDetector {
    buffer: Vec<u8>,
}

impl View for MarkerDetector {
    type V = Seq<u8>;

    closed spec fn view(&self) -> Seq<u8> {
        self.buffer@
    }
}

fn matches_at(buf: &Vec<u8>, pos: usize, pat: &[u8]) -> (r: bool)
    requires
        pos + pat@.len() <= buf@.len(),
    ensures
        r == (buf@.subrange(pos as int, pos + pat@.len()) == pat@),
{
    let _len = buf.len();
    let mut k: usize = 0;
    while k < pat.len()
        invariant
            k <= pat@.len(),
            pos + pat@.len() <= buf@.len() <= usize::MAX,
            forall|j: int| 0 <= j < k ==> buf@[pos + j] == pat@[j],
        decreases pat@.len() - k,
    {
        if buf[pos + k] != pat[k] {
            assert(buf@.subrange(pos as int, pos + pat@.len())[k as int] != pat@[k as int]);
            return false;
        }
        k += 1;
    }
    assert(buf@.subrange(pos as int, pos + pat@.len()) =~= pat@);
    true
}

fn all_hex_between(buf: &Vec<u8>, start: usize, end: usize) -> (r: bool)
    requires
        start <= end <= buf@.len(),
    ensures
        r == all_hex(buf@.subrange(start as int, end as int)),
{
    let mut k: usize = start;
    while k < end
        invariant
            start <= k <= end <= buf@.len(),
            forall|j: int| start <= j < k ==> is_hex_digit(#[trigger] buf@[j]),
        decreases end - k,
    {
        let b = buf[k];
        if !((0x30 <= b && b <= 0x39) || (0x61 <= b && b <= 0x66) || (0x41 <= b && b <= 0x46)) {
            assert(buf@.subrange(start as int, end as int)[k - start] == b);
            return false;
        }
        k += 1;
    }
    assert forall|j: int| 0 <= j < end - start implies is_hex_digit(
        #[trigger] buf@.subrange(start as int, end as int)[j],
    ) by {
        assert(buf@.subrange(start as int, end as int)[j] == buf@[start + j]);
    }
    true
}

impl Default for MarkerDetector {
    fn default() -> (d: Self)
        ensures
            d@ == Seq::<u8>::empty(),
    {
        MarkerDetector { buffer: Vec::new() }
    }
}

impl MarkerDetector {
    pub fn new() -> (d: Self)
        ensures
            d@ == Seq::<u8>::empty(),
    {
        MarkerDetector { buffer: Vec::new() }
    }

    /// Appends `bytes` to what was kept from earlier calls, reports every complete
    /// marker found, and keeps the unscanned tail.
    pub fn feed(&mut self, bytes: &[u8]) -> (events: Vec<MarkerEvent>)
        ensures
            events_view(events@) == feed_result(old(self)@, bytes@).0,
            final(self)@ == feed_result(old(self)@, bytes@).1,
    {
        self.buffer.extend_from_slice(bytes);
        let ghost all = self.buffer@;
        assert(all =~= old(self)@ + bytes@);

        let mut events: Vec<MarkerEvent> = Vec::new();
        let mut i: usize = 0;
        let buflen = self.buffer.len();
        let mut stop = false;
        let begin: [u8; 6] = [0x42u8, 0x45, 0x47, 0x49, 0x4e, 0x5f];
        let end: [u8; 4] = [0x45u8, 0x4e, 0x44, 0x5f];
        assert(begin@ =~= begin_tag());
        assert(end@ =~= end_tag());

        while !stop && i < buflen
            invariant
                self.buffer@ == all,
                buflen == all.len(),
                i <= buflen,
                begin@ == begin_tag(),
                end@ == end_tag(),
                scan_markers(all, 0).0 == events_view(events@) + scan_markers(all, i as int).0,
                scan_markers(all, 0).1 == scan_markers(all, i as int).1,
                stop ==> scan_markers(all, i as int) == (Seq::<MarkerEventView>::empty(), i as int),
            decreases buflen - i + (if stop { 0int } else { 1int }),
        {
            if self.buffer[i] != 0x1b {
                i += 1;
                continue;
            }
            if buflen - i < 72 {
                stop = true;
                continue;
            }
            if self.buffer[i + 1] != 0x5f {
                i += 1;
                continue;
            }
            let is_start = matches_at(&self.buffer, i + 2, begin.as_slice());
            let is_end = !is_start && matches_at(&self.buffer, i + 2, end.as_slice());
            if !is_start && !is_end {
                i += 2;
                continue;
            }
            let tag_len: usize = if is_start { 6 } else { 4 };
            let hex_start = i + 2 + tag_len;
            let hex_end = hex_start + 64;
            if buflen - hex_end < 2 {
                stop = true;
                continue;
            }
            if !all_hex_between(&self.buffer, hex_start, hex_end) {
                i += 2;
                continue;
            }
            if self.buffer[hex_end] != 0x1b || self.buffer[hex_end + 1] != 0x5c {
                i += 2;
                continue;
            }
            let nonce = hex_decode_nonce(&self.buffer, hex_start);
            let ev = if is_start {
                MarkerEvent::Start(nonce)
            } else {
                MarkerEvent::End(nonce)
            };
            let ghost before = events@;
            events.push(ev);
            assert(events_view(events@) =~= events_view(before).push(ev@));
            assert(events_view(events@) + scan_markers(all, hex_end + 2).0 =~= events_view(before)
                + (seq![ev@] + scan_markers(all, hex_end + 2).0));
            i = hex_end + 2;
        }
        let rest = self.buffer.split_off(i);
        self.buffer = rest;
        assert(events_view(events@) =~= events_view(events@) + Seq::<MarkerEventView>::empty());
        events
    }
}

} // verus!
