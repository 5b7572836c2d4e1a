use vstd::prelude::*;

use crate::text::{
    all_digits, chars_of, decimal, digit_char, digit_value, is_ascii_digit, join_space,
    join_words_from, parse_unsigned, parse_unsigned_chars, push_chars, push_decimal, push_str,
    split_whitespace, split_ws, string_from_chars, words_view,
};

verus! {

/// One line of tmux control-mode output.
#[derive(Debug, Clone, PartialEq)]
pub enum TmuxEvent {
    Begin(u64, u64, u32),
    End(u64, u64, u32),
    Error(u64, u64, u32, String),
    Output { pane: String, data: Vec<u8> },
    WindowAdd(String),
    SessionChanged(String, u64),
    Unknown(String),
}

/// A tmux event with its text as characters and its data as bytes.
pub enum TmuxEventView {
    Begin(u64, u64, u32),
    End(u64, u64, u32),
    Error(u64, u64, u32, Seq<char>),
    Output { pane: Seq<char>, data: Seq<u8> },
    WindowAdd(Seq<char>),
    SessionChanged(Seq<char>, u64),
    Unknown(Seq<char>),
}

impl View for TmuxEvent {
    type V = TmuxEventView;

    open spec fn view(&self) -> TmuxEventView {
        match self {
            TmuxEvent::Begin(t, w, p) => TmuxEventView::Begin(*t, *w, *p),
            TmuxEvent::End(t, w, p) => TmuxEventView::End(*t, *w, *p),
            TmuxEvent::Error(t, w, p, m) => TmuxEventView::Error(*t, *w, *p, m@),
            TmuxEvent::Output { pane, data } => TmuxEventView::Output { pane: pane@, data: data@ },
            TmuxEvent::WindowAdd(n) => TmuxEventView::WindowAdd(n@),
            TmuxEvent::SessionChanged(n, id) => TmuxEventView::SessionChanged(n@, *id),
            TmuxEvent::Unknown(raw) => TmuxEventView::Unknown(raw@),
        }
    }
}

// ── The grammar ──────────────────────────────────────────────────────────────

/// `s` without the leading `p`, if `s` starts with `p`.
pub open spec fn strip_prefix(s: Seq<char>, p: Seq<char>) -> Option<Seq<char>> {
    if p.len() <= s.len() && s.take(p.len() as int) == p {
        Some(s.skip(p.len() as int))
    } else {
        None
    }
}

/// The `k`-th word read as a `u64`; zero when it is missing or not a number.
pub open spec fn field_u64(parts: Seq<Seq<char>>, k: int) -> u64 {
    if 0 <= k < parts.len() {
        match parse_unsigned(parts[k], u64::MAX as nat) {
            Some(v) => v as u64,
            None => 0,
        }
    } else {
        0
    }
}

/// The `k`-th word read as a `u32`; zero when it is missing or not a number.
pub open spec fn field_u32(parts: Seq<Seq<char>>, k: int) -> u32 {
    if 0 <= k < parts.len() {
        match parse_unsigned(parts[k], u32::MAX as nat) {
            Some(v) => v as u32,
            None => 0,
        }
    } else {
        0
    }
}

/// The position of the first `c` in `s`.
pub open spec fn first_index_of(s: Seq<char>, c: char) -> Option<int>
    decreases s.len(),
{
    if s.len() == 0 {
        None
    } else if s[0] == c {
        Some(0)
    } else {
        match first_index_of(s.drop_first(), c) {
            Some(k) => Some(k + 1),
            None => None,
        }
    }
}

/// A first position found is a position of the sequence.
pub proof fn lemma_first_index_bound(s: Seq<char>, c: char)
    ensures
        first_index_of(s, c) is Some ==> 0 <= first_index_of(s, c)->0 < s.len(),
    decreases s.len(),
{
    if s.len() > 0 && s[0] != c {
        lemma_first_index_bound(s.drop_first(), c);
    }
}

/// The pane id and the escaped data of `%output %<pane> <data>`: they are split at the
/// first space; with no space, all of it is the pane and the data is empty.
pub open spec fn split_pane(ps: Seq<char>) -> (Seq<char>, Seq<char>) {
    match first_index_of(ps, ' ') {
        Some(k) => (ps.take(k), ps.skip(k + 1)),
        None => (ps, Seq::empty()),
    }
}

/// The byte that three octal digits stand for; zero if a digit is 8 or 9 or the
/// value exceeds 255 (`u8::from_str_radix(_, 8)`, or zero when it fails).
pub open spec fn octal_byte(o: Seq<char>) -> u8 {
    let v = digit_value(o[0]) * 64 + digit_value(o[1]) * 8 + digit_value(o[2]);
    if digit_value(o[0]) < 8 && digit_value(o[1]) < 8 && digit_value(o[2]) < 8 && v <= 255 {
        v as u8
    } else {
        0
    }
}

/// Decodes tmux's escaping of output data. A backslash with the (up to) three
/// characters after it stands for one byte when those are three ASCII digits;
/// otherwise it stands for a backslash followed by their UTF-8 encoding. Any other
/// character stands for its UTF-8 encoding, so output that tmux passes unescaped keeps
/// its bytes.
pub open spec fn decode_octal(s: Seq<char>) -> Seq<u8>
    decreases s.len(),
{
    if s.len() == 0 {
        seq![]
    } else if s[0] == '\\' {
        let n: int = if s.len() - 1 >= 3 {
            3
        } else {
            s.len() - 1
        };
        let o = s.subrange(1, 1 + n);
        let head = if n == 3 && all_digits(o) {
            seq![octal_byte(o)]
        } else {
            seq![0x5cu8] + vstd::utf8::encode_utf8(o)
        };
        head + decode_octal(s.skip(1 + n))
    } else {
        vstd::utf8::encode_utf8(seq![s[0]]) + decode_octal(s.drop_first())
    }
}

/// The message of `%error`: the words after the first three, joined by single spaces.
pub open spec fn error_message(parts: Seq<Seq<char>>) -> Seq<char> {
    if parts.len() > 3 {
        join_space(parts.skip(3))
    } else {
        seq![]
    }
}

/// The event that a line of tmux control-mode output stands for.
///
/// ```text
/// %begin <time> <window-index> <pane-index>
/// %end <time> <window-index> <pane-index>
/// %error <time> <window-index> <pane-index> <error-message>
/// %output %<pane> <octal-escaped-bytes>
/// %window-add <name>
/// %session-changed <name> <session-id>
/// ```
/// Missing or malformed numbers read as zero; any other line is `Unknown`.
pub open spec fn parse_event(line: Seq<char>) -> TmuxEventView {
    if strip_prefix(line, "%begin "@) is Some {
        let p = split_ws(strip_prefix(line, "%begin "@)->0);
        TmuxEventView::Begin(field_u64(p, 0), field_u64(p, 1), field_u32(p, 2))
    } else if strip_prefix(line, "%end "@) is Some {
        let p = split_ws(strip_prefix(line, "%end "@)->0);
        TmuxEventView::End(field_u64(p, 0), field_u64(p, 1), field_u32(p, 2))
    } else if strip_prefix(line, "%error "@) is Some {
        let p = split_ws(strip_prefix(line, "%error "@)->0);
        TmuxEventView::Error(field_u64(p, 0), field_u64(p, 1), field_u32(p, 2), error_message(p))
    } else if strip_prefix(line, "%output "@) is Some && strip_prefix(
        strip_prefix(line, "%output "@)->0,
        "%"@,
    ) is Some {
        let ps = strip_prefix(strip_prefix(line, "%output "@)->0, "%"@)->0;
        TmuxEventView::Output { pane: split_pane(ps).0, data: decode_octal(split_pane(ps).1) }
    } else if strip_prefix(line, "%window-add "@) is Some {
        TmuxEventView::WindowAdd(strip_prefix(line, "%window-add "@)->0)
    } else if strip_prefix(line, "%session-changed "@) is Some && split_ws(
        strip_prefix(line, "%session-changed "@)->0,
    ).len() >= 2 {
        let p = split_ws(strip_prefix(line, "%session-changed "@)->0);
        TmuxEventView::SessionChanged(
            p[0],
            match parse_unsigned(p[1], u64::MAX as nat) {
                Some(v) => v as u64,
                None => 0,
            },
        )
    } else {
        TmuxEventView::Unknown(line)
    }
}

// ── Parsing ──────────────────────────────────────────────────────────────────

/// Whether `s` starts with the characters of `lit`; if so, the rest.
fn strip_literal(s: &[char], lit: &str) -> (r: Option<Vec<char>>)
    ensures
        match r {
            Some(rest) => strip_prefix(s@, lit@) == Some(rest@),
            None => strip_prefix(s@, lit@) is None,
        },
{
    let p = chars_of(lit);
    let n = s.len();
    let m = p.len();
    if m > n {
        return None;
    }
    let mut k: usize = 0;
    while k < m
        invariant
            k <= m <= n,
            n == s@.len(),
            m == p@.len(),
            p@ == lit@,
            forall|j: int| 0 <= j < k ==> s@[j] == #[trigger] p@[j],
        decreases m - k,
    {
        if s[k] != p[k] {
            assert(s@.take(m as int)[k as int] != p@[k as int]);
            return None;
        }
        k += 1;
    }
    assert(s@.take(m as int) =~= p@);
    let mut rest: Vec<char> = Vec::new();
    let mut j = m;
    while j < n
        invariant
            m <= j <= n,
            n == s@.len(),
            rest@ == s@.subrange(m as int, j as int),
        decreases n - j,
    {
        rest.push(s[j]);
        j += 1;
        assert(rest@ =~= s@.subrange(m as int, j as int));
    }
    assert(rest@ =~= s@.skip(m as int));
    Some(rest)
}

fn parse_field_u64(parts: &Vec<Vec<char>>, k: usize) -> (v: u64)
    ensures
        v == field_u64(words_view(parts@), k as int),
{
    if k < parts.len() {
        match parse_unsigned_chars(parts[k].as_slice(), u64::MAX) {
            Some(v) => v,
            None => 0,
        }
    } else {
        0
    }
}

fn parse_field_u32(parts: &Vec<Vec<char>>, k: usize) -> (v: u32)
    ensures
        v == field_u32(words_view(parts@), k as int),
{
    if k < parts.len() {
        match parse_unsigned_chars(parts[k].as_slice(), u32::MAX as u64) {
            Some(v) => v as u32,
            None => 0,
        }
    } else {
        0
    }
}

fn parse_time_window_pane(parts: &Vec<Vec<char>>) -> (r: (u64, u64, u32))
    ensures
        r == (
            field_u64(words_view(parts@), 0),
            field_u64(words_view(parts@), 1),
            field_u32(words_view(parts@), 2),
        ),
{
    let time = parse_field_u64(parts, 0);
    let window = parse_field_u64(parts, 1);
    let pane = parse_field_u32(parts, 2);
    (time, window, pane)
}

pub(crate) proof fn lemma_first_index_found(s: Seq<char>, c: char, k: int)
    requires
        0 <= k < s.len(),
        s[k] == c,
        forall|j: int| 0 <= j < k ==> s[j] != c,
    ensures
        first_index_of(s, c) == Some(k),
    decreases k,
{
    if k > 0 {
        assert forall|j: int| 0 <= j < k - 1 implies s.drop_first()[j] != c by {
            assert(s.drop_first()[j] == s[j + 1]);
        }
        lemma_first_index_found(s.drop_first(), c, k - 1);
    }
}

pub(crate) proof fn lemma_first_index_absent(s: Seq<char>, c: char)
    requires
        forall|j: int| 0 <= j < s.len() ==> s[j] != c,
    ensures
        first_index_of(s, c) is None,
    decreases s.len(),
{
    if s.len() > 0 {
        assert forall|j: int| 0 <= j < s.len() - 1 implies s.drop_first()[j] != c by {
            assert(s.drop_first()[j] == s[j + 1]);
        }
        lemma_first_index_absent(s.drop_first(), c);
    }
}

/// Splits `%output` text after the `%` into the pane id and the escaped data.
fn split_pane_chars(ps: &[char]) -> (r: (Vec<char>, Vec<char>))
    ensures
        (r.0@, r.1@) == split_pane(ps@),
{
    let n = ps.len();
    let mut k: usize = 0;
    while k < n && ps[k] != ' '
        invariant
            k <= n,
            n == ps@.len(),
            forall|j: int| 0 <= j < k ==> ps@[j] != ' ',
        decreases n - k,
    {
        k += 1;
    }
    if k < n {
        proof {
            lemma_first_index_found(ps@, ' ', k as int);
        }
        let mut pane: Vec<char> = Vec::new();
        crate::text::push_chars(&mut pane, &ps[0..k]);
        let mut data: Vec<char> = Vec::new();
        crate::text::push_chars(&mut data, &ps[k + 1..n]);
        assert(pane@ =~= ps@.take(k as int));
        assert(data@ =~= ps@.skip(k + 1));
        (pane, data)
    } else {
        proof {
            lemma_first_index_absent(ps@, ' ');
        }
        let mut pane: Vec<char> = Vec::new();
        crate::text::push_chars(&mut pane, ps);
        assert(pane@ =~= ps@);
        (pane, Vec::new())
    }
}

fn octal_byte_of(o: &[char]) -> (b: u8)
    requires
        o@.len() == 3,
        all_digits(o@),
    ensures
        b == octal_byte(o@),
{
    assert(is_ascii_digit(o@[0]) && is_ascii_digit(o@[1]) && is_ascii_digit(o@[2]));
    let d0 = o[0] as u32 - '0' as u32;
    let d1 = o[1] as u32 - '0' as u32;
    let d2 = o[2] as u32 - '0' as u32;
    let v = d0 * 64 + d1 * 8 + d2;
    if d0 < 8 && d1 < 8 && d2 < 8 && v <= 255 {
        v as u8
    } else {
        0
    }
}

fn all_ascii_digits(o: &[char]) -> (r: bool)
    ensures
        r == all_digits(o@),
{
    let mut k: usize = 0;
    while k < o.len()
        invariant
            k <= o@.len(),
            forall|j: int| 0 <= j < k ==> is_ascii_digit(#[trigger] o@[j]),
        decreases o@.len() - k,
    {
        if !('0' <= o[k] && o[k] <= '9') {
            assert(!is_ascii_digit(o@[k as int]));
            return false;
        }
        k += 1;
    }
    true
}

/// Decodes tmux's escaping of `%output` data.
fn decode_octal_chars(input: &[char]) -> (out: Vec<u8>)
    ensures
        out@ == decode_octal(input@),
{
    let n = input.len();
    let mut result: Vec<u8> = Vec::new();
    let mut i: usize = 0;
    assert(input@.skip(0) =~= input@);
    while i < n
        invariant
            i <= n,
            n == input@.len(),
            decode_octal(input@) == result@ + decode_octal(input@.skip(i as int)),
        decreases n - i,
    {
        let ghost rest = input@.skip(i as int);
        let ghost before = result@;
        let ch = input[i];
        if ch == '\\' {
            let m: usize = if n - i - 1 >= 3 { 3 } else { n - i - 1 };
            let o = &input[i + 1..i + 1 + m];
            assert(o@ =~= rest.subrange(1, 1 + m as int));
            if m == 3 && all_ascii_digits(o) {
                result.push(octal_byte_of(o));
            } else {
                result.push(0x5c);
                let text = string_from_chars(o);
                let encoded = text.as_str().as_bytes();
                crate::bytes::append_range(&mut result, encoded, 0, encoded.len());
                assert(encoded@.subrange(0, encoded@.len() as int) =~= encoded@);
            }
            assert(rest.skip(1 + m as int) =~= input@.skip(i + 1 + m));
            i = i + 1 + m;
        } else {
            let one = [ch];
            let text = string_from_chars(one.as_slice());
            let encoded = text.as_str().as_bytes();
            crate::bytes::append_range(&mut result, encoded, 0, encoded.len());
            assert(encoded@.subrange(0, encoded@.len() as int) =~= encoded@);
            assert(one@ =~= seq![rest[0]]);
            assert(rest.drop_first() =~= input@.skip(i + 1));
            i += 1;
        }
        assert(result@ + decode_octal(input@.skip(i as int)) =~= before + decode_octal(rest));
    }
    assert(result@ + decode_octal(input@.skip(n as int)) =~= result@);
    result
}

/// Parses a single line of tmux control-mode output.
pub fn parse_tmux_event(line: &str) -> (ev: TmuxEvent)
    ensures
        ev@ == parse_event(line@),
{
    let s = chars_of(line);
    let s = s.as_slice();
    if let Some(rest) = strip_literal(s, "%begin ") {
        let parts = split_whitespace(rest.as_slice());
        let (time, window, pane) = parse_time_window_pane(&parts);
        return TmuxEvent::Begin(time, window, pane);
    }
    if let Some(rest) = strip_literal(s, "%end ") {
        let parts = split_whitespace(rest.as_slice());
        let (time, window, pane) = parse_time_window_pane(&parts);
        return TmuxEvent::End(time, window, pane);
    }
    if let Some(rest) = strip_literal(s, "%error ") {
        let parts = split_whitespace(rest.as_slice());
        let (time, window, pane) = parse_time_window_pane(&parts);
        let msg = if parts.len() > 3 {
            join_words_from(&parts, 3)
        } else {
            Vec::new()
        };
        return TmuxEvent::Error(time, window, pane, string_from_chars(msg.as_slice()));
    }
    if let Some(rest) = strip_literal(s, "%output ") {
        if let Some(pane_start) = strip_literal(rest.as_slice(), "%") {
            let (pane, data_str) = split_pane_chars(pane_start.as_slice());
            let data = decode_octal_chars(data_str.as_slice());
            return TmuxEvent::Output { pane: string_from_chars(pane.as_slice()), data };
        }
    }
    if let Some(name) = strip_literal(s, "%window-add ") {
        return TmuxEvent::WindowAdd(string_from_chars(name.as_slice()));
    }
    if let Some(rest) = strip_literal(s, "%session-changed ") {
        let parts = split_whitespace(rest.as_slice());
        if parts.len() >= 2 {
            let name = string_from_chars(parts[0].as_slice());
            let id = match parse_unsigned_chars(parts[1].as_slice(), u64::MAX) {
                Some(v) => v,
                None => 0,
            };
            return TmuxEvent::SessionChanged(name, id);
        }
    }
    TmuxEvent::Unknown(string_from_chars(s))
}

// ── Writing events ───────────────────────────────────────────────────────────

/// A byte as tmux escapes it: a backslash and three octal digits.
pub open spec fn octal_escape_byte(b: u8) -> Seq<char> {
    seq!['\\', digit_char((b / 64) as nat), digit_char(((b / 8) % 8) as nat), digit_char((b % 8) as nat)]
}

/// Every byte of `data` escaped as a backslash and three octal digits.
pub open spec fn octal_escaped(data: Seq<u8>) -> Seq<char>
    decreases data.len(),
{
    if data.len() == 0 {
        seq![]
    } else {
        octal_escaped(data.drop_last()) + octal_escape_byte(data.last())
    }
}

/// The control-mode line that an event is written as.
pub open spec fn event_line(e: TmuxEventView) -> Seq<char> {
    match e {
        TmuxEventView::Begin(t, w, p) => "%begin "@ + decimal(t as nat) + seq![' '] + decimal(
            w as nat,
        ) + seq![' '] + decimal(p as nat),
        TmuxEventView::End(t, w, p) => "%end "@ + decimal(t as nat) + seq![' '] + decimal(
            w as nat,
        ) + seq![' '] + decimal(p as nat),
        TmuxEventView::Error(t, w, p, msg) => "%error "@ + decimal(t as nat) + seq![' ']
            + decimal(w as nat) + seq![' '] + decimal(p as nat) + seq![' '] + msg,
        TmuxEventView::Output { pane, data } => "%output %"@ + pane + seq![' '] + octal_escaped(
            data,
        ),
        TmuxEventView::WindowAdd(name) => "%window-add "@ + name,
        TmuxEventView::SessionChanged(name, id) => "%session-changed "@ + name + seq![' ']
            + decimal(id as nat),
        TmuxEventView::Unknown(raw) => raw,
    }
}

fn push_octal_escaped(v: &mut Vec<char>, data: &[u8])
    ensures
        final(v)@ == old(v)@ + octal_escaped(data@),
{
    let mut k: usize = 0;
    while k < data.len()
        invariant
            k <= data@.len(),
            v@ == old(v)@ + octal_escaped(data@.take(k as int)),
        decreases data@.len() - k,
    {
        let b = data[k];
        let ghost before = v@;
        v.push('\\');
        v.push((0x30u8 + b / 64) as char);
        v.push((0x30u8 + (b / 8) % 8) as char);
        v.push((0x30u8 + b % 8) as char);
        k += 1;
        assert(data@.take(k as int).drop_last() =~= data@.take(k - 1));
        assert(v@ =~= before + octal_escape_byte(b));
    }
    assert(data@.take(data@.len() as int) =~= data@);
}

fn push_three(v: &mut Vec<char>, t: u64, w: u64, p: u32)
    ensures
        final(v)@ == old(v)@ + decimal(t as nat) + seq![' '] + decimal(w as nat) + seq![' ']
            + decimal(p as nat),
{
    push_decimal(v, t);
    v.push(' ');
    push_decimal(v, w);
    v.push(' ');
    push_decimal(v, p as u64);
    assert(v@ =~= old(v)@ + decimal(t as nat) + seq![' '] + decimal(w as nat) + seq![' ']
        + decimal(p as nat));
}

impl TmuxEvent {
    /// The control-mode line that this event is written as.
    pub fn to_line(&self) -> (s: String)
        ensures
            s@ == event_line(self@),
    {
        let mut v: Vec<char> = Vec::new();
        match self {
            TmuxEvent::Begin(t, w, p) => {
                push_str(&mut v, "%begin ");
                push_three(&mut v, *t, *w, *p);
            },
            TmuxEvent::End(t, w, p) => {
                push_str(&mut v, "%end ");
                push_three(&mut v, *t, *w, *p);
            },
            TmuxEvent::Error(t, w, p, msg) => {
                push_str(&mut v, "%error ");
                push_three(&mut v, *t, *w, *p);
                v.push(' ');
                push_str(&mut v, msg.as_str());
            },
            TmuxEvent::Output { pane, data } => {
                push_str(&mut v, "%output %");
                push_str(&mut v, pane.as_str());
                v.push(' ');
                push_octal_escaped(&mut v, data.as_slice());
            },
            TmuxEvent::WindowAdd(name) => {
                push_str(&mut v, "%window-add ");
                push_str(&mut v, name.as_str());
            },
            TmuxEvent::SessionChanged(name, id) => {
                push_str(&mut v, "%session-changed ");
                push_str(&mut v, name.as_str());
                v.push(' ');
                push_decimal(&mut v, *id);
            },
            TmuxEvent::Unknown(raw) => {
                push_str(&mut v, raw.as_str());
            },
        }
        string_from_chars(v.as_slice())
    }
}

} // verus!
