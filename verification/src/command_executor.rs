use vstd::prelude::*;

use crate::bytes::{append_range, find_sub, find_subsequence, lemma_find_sub};
use crate::fe_master::apc_term;
use crate::marker::{ascii_bytes, begin_tag, end_tag, hex_lower, marker_bytes, Nonce};
use crate::session::{copy_string, CommandCard, CommandState, Session};
use crate::session_manager::{
    complete_outcome, fail_outcome, registry_after, session_result, SessionCommandError,
    SessionManager,
};
use crate::text::{
    all_digits, chars_of, digits_value, parse_unsigned, parse_unsigned_chars, push_signed_decimal,
    push_str, signed_decimal, string_from_chars,
};

verus! {

// ── Markers with an exit status ──────────────────────────────────────────────

/// `ESC _ END_<hex of nonce>_<exit code> ESC \`: the end marker printed after a command,
/// carrying its exit status.
pub open spec fn end_marker_with_code(nonce: Seq<u8>, exit_code: i32) -> Seq<u8> {
    seq![0x1bu8, 0x5f] + end_tag() + ascii_bytes(hex_lower(nonce)) + seq![0x5fu8] + ascii_bytes(
        signed_decimal(exit_code as int),
    ) + seq![0x1bu8, 0x5c]
}

/// The output between the start marker and the end marker of `nonce` (with that exit
/// code) in `raw`; all of `raw` when either marker is missing or they are out of order.
pub open spec fn command_output(raw: Seq<u8>, nonce: Seq<u8>, exit_code: i32) -> Seq<u8> {
    let start = marker_bytes(begin_tag(), nonce);
    let end = end_marker_with_code(nonce, exit_code);
    match (find_sub(raw, start), find_sub(raw, end)) {
        (Some(a), Some(b)) => if b >= a + start.len() {
            raw.subrange(a + start.len(), b)
        } else {
            raw
        },
        _ => raw,
    }
}

/// The text that `String::from_utf8_lossy` makes of `bytes`.
pub uninterp spec fn utf8_lossy(bytes: Seq<u8>) -> Seq<char>;

/// Calls `String::from_utf8_lossy` (and turns the result into an owned `String`).
/// The contract names the result, and states what the documentation promises: valid
/// UTF-8 is decoded as it is. How invalid sequences are replaced is left unsaid.
#[verifier::external_body]
fn lossy_string(bytes: &[u8]) -> (s: String)
    ensures
        s@ == utf8_lossy(bytes@),
        vstd::utf8::valid_utf8(bytes@) ==> s@ == vstd::utf8::decode_utf8(bytes@),
{
    String::from_utf8_lossy(bytes).into_owned()
}

fn ascii_of(v: &[char]) -> (b: Vec<u8>)
    ensures
        b@ == ascii_bytes(v@),
{
    let mut out: Vec<u8> = Vec::new();
    let mut k: usize = 0;
    while k < v.len()
        invariant
            k <= v@.len(),
            out@ == ascii_bytes(v@.take(k as int)),
        decreases v@.len() - k,
    {
        out.push(v[k] as u8);
        k += 1;
        assert(out@ =~= ascii_bytes(v@.take(k as int)));
    }
    assert(v@.take(v@.len() as int) =~= v@);
    out
}

fn nonce_hex_bytes(nonce: &Nonce) -> (b: Vec<u8>)
    ensures
        b@ == ascii_bytes(hex_lower(nonce@)),
{
    let hex = nonce.hex();
    let cs = chars_of(hex.as_str());
    ascii_of(cs.as_slice())
}

fn begin_marker_of(nonce: &Nonce) -> (b: Vec<u8>)
    ensures
        b@ == marker_bytes(begin_tag(), nonce@),
{
    let hex = nonce_hex_bytes(nonce);
    let mut b: Vec<u8> = Vec::new();
    b.push(0x1b);
    b.push(0x5f);
    b.push(0x42);
    b.push(0x45);
    b.push(0x47);
    b.push(0x49);
    b.push(0x4e);
    b.push(0x5f);
    append_range(&mut b, hex.as_slice(), 0, hex.len());
    b.push(0x1b);
    b.push(0x5c);
    assert(hex@.subrange(0, hex@.len() as int) =~= hex@);
    assert(b@ =~= marker_bytes(begin_tag(), nonce@));
    b
}

fn end_marker_prefix_of(nonce: &Nonce) -> (b: Vec<u8>)
    ensures
        b@ == end_marker_prefix(nonce@),
{
    let hex = nonce_hex_bytes(nonce);
    let mut b: Vec<u8> = Vec::new();
    b.push(0x1b);
    b.push(0x5f);
    b.push(0x45);
    b.push(0x4e);
    b.push(0x44);
    b.push(0x5f);
    append_range(&mut b, hex.as_slice(), 0, hex.len());
    b.push(0x5f);
    assert(hex@.subrange(0, hex@.len() as int) =~= hex@);
    assert(b@ =~= end_marker_prefix(nonce@));
    b
}

fn end_marker_of(nonce: &Nonce, exit_code: i32) -> (b: Vec<u8>)
    ensures
        b@ == end_marker_with_code(nonce@, exit_code),
{
    let mut b = end_marker_prefix_of(nonce);
    let mut code: Vec<char> = Vec::new();
    push_signed_decimal(&mut code, exit_code as i64);
    assert(code@ =~= signed_decimal(exit_code as int));
    let code_bytes = ascii_of(code.as_slice());
    append_range(&mut b, code_bytes.as_slice(), 0, code_bytes.len());
    b.push(0x1b);
    b.push(0x5c);
    assert(code_bytes@.subrange(0, code_bytes@.len() as int) =~= code_bytes@);
    assert(b@ =~= end_marker_with_code(nonce@, exit_code));
    b
}

/// The bytes of `raw` between the start marker and the end marker (with `exit_code`)
/// of `nonce`; all of `raw` when they cannot be found in that order.
pub fn extract_command_output_bytes(raw: &[u8], nonce: &Nonce, exit_code: i32) -> (out: Vec<u8>)
    ensures
        out@ == command_output(raw@, nonce@, exit_code),
{
    let start = begin_marker_of(nonce);
    let end = end_marker_of(nonce, exit_code);
    let _rlen = raw.len();
    let found_start = find_subsequence(raw, start.as_slice());
    let found_end = find_subsequence(raw, end.as_slice());
    let mut out: Vec<u8> = Vec::new();
    match (found_start, found_end) {
        (Some(a), Some(b)) => {
            if b >= a + start.len() {
                append_range(&mut out, raw, a + start.len(), b);
                return out;
            }
        },
        _ => {},
    }
    append_range(&mut out, raw, 0, raw.len());
    assert(raw@.subrange(0, raw@.len() as int) =~= raw@);
    out
}

/// The output of a command, read from the raw terminal stream between its markers,
/// as text.
pub fn extract_command_output(raw: &[u8], nonce: &Nonce, exit_code: i32) -> (s: String)
    ensures
        s@ == utf8_lossy(command_output(raw@, nonce@, exit_code)),
        vstd::utf8::valid_utf8(command_output(raw@, nonce@, exit_code)) ==> s@
            == vstd::utf8::decode_utf8(command_output(raw@, nonce@, exit_code)),
{
    let bytes = extract_command_output_bytes(raw, nonce, exit_code);
    lossy_string(bytes.as_slice())
}

// ── Waiting for completion ───────────────────────────────────────────────────

/// `ESC _ END_<hex of nonce>_`: how the end marker of `nonce` starts.
pub open spec fn end_marker_prefix(nonce: Seq<u8>) -> Seq<u8> {
    seq![0x1bu8, 0x5f] + end_tag() + ascii_bytes(hex_lower(nonce)) + seq![0x5fu8]
}

/// Bytes read as the characters with those code points.
pub open spec fn latin1(b: Seq<u8>) -> Seq<char> {
    Seq::new(b.len(), |i: int| b[i] as char)
}

/// What `str::parse::<i32>` gives: an optional sign, then at least one ASCII digit and
/// nothing else, with a value in range.
pub open spec fn parse_i32(s: Seq<char>) -> Option<i32> {
    if s.len() > 0 && s[0] == '-' {
        let d = s.drop_first();
        if d.len() > 0 && all_digits(d) && digits_value(d) <= 0x8000_0000 {
            Some((-(digits_value(d) as int)) as i32)
        } else {
            None
        }
    } else {
        match parse_unsigned(s, 0x7fff_ffff) {
            Some(v) => Some(v as i32),
            None => None,
        }
    }
}

/// The exit status that the end marker of `nonce` carries in `raw`: the text between
/// the first `ESC _ END_<hex>_` and the `ESC \` after it, read as an `i32`. None while
/// that marker is missing, incomplete, or does not carry a number.
pub open spec fn completion_exit_code(raw: Seq<u8>, nonce: Seq<u8>) -> Option<i32> {
    let p = end_marker_prefix(nonce);
    match find_sub(raw, p) {
        None => None,
        Some(a) => {
            let after = raw.skip(a + p.len());
            match find_sub(after, apc_term()) {
                None => None,
                Some(b) => parse_i32(latin1(after.take(b))),
            }
        },
    }
}

fn latin1_of(b: &[u8]) -> (v: Vec<char>)
    ensures
        v@ == latin1(b@),
{
    let mut out: Vec<char> = Vec::new();
    let mut k: usize = 0;
    while k < b.len()
        invariant
            k <= b@.len(),
            out@ == latin1(b@.take(k as int)),
        decreases b@.len() - k,
    {
        out.push(b[k] as char);
        k += 1;
        assert(out@ =~= latin1(b@.take(k as int)));
    }
    assert(b@.take(b@.len() as int) =~= b@);
    out
}

fn parse_i32_chars(s: &[char]) -> (r: Option<i32>)
    ensures
        r == parse_i32(s@),
{
    if s.len() > 0 && s[0] == '-' {
        let d = &s[1..s.len()];
        assert(d@ =~= s@.drop_first());
        if d.len() == 0 || d[0] == '+' {
            proof {
                if d@.len() > 0 {
                    assert(!crate::text::is_ascii_digit(d@[0]));
                }
            }
            return None;
        }
        match parse_unsigned_chars(d, 0x8000_0000) {
            Some(v) => Some((0i64 - v as i64) as i32),
            None => None,
        }
    } else {
        match parse_unsigned_chars(s, 0x7fff_ffff) {
            Some(v) => Some(v as i32),
            None => None,
        }
    }
}

/// Watches the raw terminal stream of one command for its end marker.
pub struct CompletionWatch {
    nonce: Nonce,
    raw: Vec<u8>,
}

impl View for CompletionWatch {
    type V = (Seq<u8>, Seq<u8>);

    /// The nonce watched for, and the raw output seen so far.
    closed spec fn view(&self) -> (Seq<u8>, Seq<u8>) {
        (self.nonce@, self.raw@)
    }
}

impl CompletionWatch {
    pub fn new(nonce: Nonce) -> (w: Self)
        ensures
            w@ == (nonce@, Seq::<u8>::empty()),
    {
        CompletionWatch { nonce, raw: Vec::new() }
    }

    /// Takes the next chunk of output; the command's exit status once its end marker
    /// has arrived.
    pub fn feed(&mut self, chunk: &[u8]) -> (r: Option<i32>)
        ensures
            final(self)@.0 == old(self)@.0,
            final(self)@.1 == old(self)@.1 + chunk@,
            r == completion_exit_code(final(self)@.1, final(self)@.0),
    {
        append_range(&mut self.raw, chunk, 0, chunk.len());
        assert(chunk@.subrange(0, chunk@.len() as int) =~= chunk@);
        let p = end_marker_prefix_of(&self.nonce);
        let raw = self.raw.as_slice();
        let _rlen = raw.len();
        let a = match find_subsequence(raw, p.as_slice()) {
            Some(a) => a,
            None => {
                return None;
            },
        };
        proof {
            lemma_find_sub(raw@, p@);
        }
        let after = &raw[a + p.len()..raw.len()];
        assert(after@ =~= raw@.skip(a + p@.len()));
        let term: [u8; 2] = [0x1b, 0x5c];
        assert(term@ =~= apc_term());
        let b = match find_subsequence(after, term.as_slice()) {
            Some(b) => b,
            None => {
                return None;
            },
        };
        let text = latin1_of(&after[0..b]);
        assert(after@.subrange(0, b as int) =~= after@.take(b as int));
        parse_i32_chars(text.as_slice())
    }

    /// The raw output seen so far.
    pub fn raw(&self) -> (r: &Vec<u8>)
        ensures
            r@ == self@.1,
    {
        &self.raw
    }
}

// ── Preconditions and outcome ────────────────────────────────────────────────

/// Why an approved command cannot be executed: the session or its command is missing,
/// or the command is not executing.
pub open spec fn execution_refusal(m: crate::session_manager::Registry, id: u128) -> Option<Seq<char>> {
    if !m.contains_key(id) {
        Some("session not found"@)
    } else {
        match m[id].session.current_command {
            None => Some("current command missing"@),
            Some(c) => if c.state != CommandState::Executing {
                Some("current command is not executing"@)
            } else {
                None
            },
        }
    }
}

/// The session of `id` and its executing command, or why it cannot be executed.
pub fn approved_command(manager: &SessionManager, id: u128) -> (r: Result<(Session, CommandCard), String>)
    ensures
        match r {
            Ok((s, c)) => execution_refusal(manager@, id) is None && s@ == manager@[id].session
                && Some(c@) == manager@[id].session.current_command,
            Err(e) => execution_refusal(manager@, id) == Some(e@),
        },
{
    let session = match manager.get(id) {
        Some(s) => s,
        None => {
            return Err("session not found".to_owned());
        },
    };
    let current = match &session.current_command {
        Some(c) => c.copy(),
        None => {
            return Err("current command missing".to_owned());
        },
    };
    match current.state {
        CommandState::Executing => Ok((session, current)),
        _ => Err("current command is not executing".to_owned()),
    }
}

/// Who resolves a command: `"yolo"` in yolo mode, otherwise `"human"`.
pub fn resolved_by_for(yolo: bool) -> (r: &'static str)
    ensures
        r@ == if yolo {
            "yolo"@
        } else {
            "human"@
        },
{
    if yolo {
        "yolo"
    } else {
        "human"
    }
}


/// Who resolves a command, as `resolved_by_for` names it.
pub open spec fn resolver(yolo: bool) -> Seq<char> {
    if yolo {
        "yolo"@
    } else {
        "human"@
    }
}

/// The name of a refusal as messages write it: the name of its variant.
pub open spec fn refusal_name(e: SessionCommandError) -> Seq<char> {
    match e {
        SessionCommandError::NotFound => "NotFound"@,
        SessionCommandError::CommandAlreadyActive => "CommandAlreadyActive"@,
        SessionCommandError::PendingCommandRequired => "PendingCommandRequired"@,
        SessionCommandError::ExecutingCommandRequired => "ExecutingCommandRequired"@,
        SessionCommandError::IdUnavailable => "IdUnavailable"@,
    }
}

/// Why an execution fails when recording its completion is refused with `e`.
pub open spec fn completion_refused(e: SessionCommandError) -> Seq<char> {
    "failed to complete command: "@ + refusal_name(e)
}

fn completion_refused_message(e: SessionCommandError) -> (s: String)
    ensures
        s@ == completion_refused(e),
{
    let mut v: Vec<char> = Vec::new();
    push_str(&mut v, "failed to complete command: ");
    let name: &str = match e {
        SessionCommandError::NotFound => "NotFound",
        SessionCommandError::CommandAlreadyActive => "CommandAlreadyActive",
        SessionCommandError::PendingCommandRequired => "PendingCommandRequired",
        SessionCommandError::ExecutingCommandRequired => "ExecutingCommandRequired",
        SessionCommandError::IdUnavailable => "IdUnavailable",
    };
    push_str(&mut v, name);
    string_from_chars(v.as_slice())
}

/// Records how the execution of session `id`'s current command ended. When it ran to
/// its end marker (`Ok` with the exit code and the raw output seen), the output between
/// its markers is recorded with the exit code as the command's completion, resolved by
/// `resolver(yolo)`; if that is refused, the command is failed with the reason. When
/// the execution itself failed (`Err`), the command is failed with that error. The
/// error, if any, is returned.
pub fn record_execution(
    manager: &mut SessionManager,
    id: u128,
    yolo: bool,
    nonce: &Nonce,
    outcome: Result<(i32, Vec<u8>), String>,
) -> (r: Result<(), String>)
    ensures
        match outcome {
            Ok((code, raw)) => exists|at: i64|
                {
                    match #[trigger] complete_outcome(
                        old(manager)@,
                        id,
                        code,
                        utf8_lossy(command_output(raw@, nonce@, code)),
                        resolver(yolo),
                        at,
                    ) {
                        Ok(m) => r is Ok && final(manager)@ == m,
                        Err(e) => (r matches Err(t) && t@ == completion_refused(e)) && exists|at2: i64|
                            final(manager)@ == registry_after(
                                #[trigger] fail_outcome(old(manager)@, id, completion_refused(e), at2),
                                old(manager)@,
                            ),
                    }
                },
            Err(err) => (r matches Err(t) && t@ == err@) && exists|at: i64|
                final(manager)@ == registry_after(
                    #[trigger] fail_outcome(old(manager)@, id, err@, at),
                    old(manager)@,
                ),
        },
        outcome matches Ok((code, raw)) ==> old(manager)@.contains_key(id) ==> old(
            manager,
        )@[id].session.current_command is Some ==> old(manager)@[id].session.current_command->Some_0.state
            == CommandState::Executing ==> {
            &&& r is Ok
            &&& final(manager)@.contains_key(id)
            &&& final(manager)@[id].session.current_command is None
            &&& final(manager)@[id].history.len() == old(manager)@[id].history.len() + 1
            &&& final(manager)@[id].history.drop_last() == old(manager)@[id].history
            &&& final(manager)@[id].history.last().command == old(
                manager,
            )@[id].session.current_command->Some_0.command
            &&& final(manager)@[id].history.last().exit_code == Some(code)
            &&& final(manager)@[id].history.last().output == utf8_lossy(
                command_output(raw@, nonce@, code),
            )
            &&& final(manager)@[id].history.last().resolved_by == Some(
                if yolo {
                    "yolo"@
                } else {
                    "human"@
                },
            )
        },
{
    let ghost m0 = manager@;
    let ghost mut done_at: i64 = 0;
    let err = match outcome {
        Ok((code, raw)) => {
            let output = extract_command_output(raw.as_slice(), nonce, code);
            let by = resolved_by_for(yolo);
            let ghost out_v = output@;
            assert(out_v == utf8_lossy(command_output(raw@, nonce@, code)));
            assert(by@ == resolver(yolo));
            let res = manager.complete_command(id, code, output, by);
            proof {
                done_at = choose|at: i64|
                    session_result(
                        #[trigger] complete_outcome(m0, id, code, out_v, by@, at),
                        id,
                        res,
                    ) && manager@ == registry_after(complete_outcome(m0, id, code, out_v, by@, at), m0);
            }
            match res {
                Ok(_) => {
                    assert(complete_outcome(m0, id, code, out_v, resolver(yolo), done_at) is Ok);
                    assert(manager@[id].history.drop_last() =~= m0[id].history);
                    return Ok(());
                },
                Err(e) => {
                    assert(complete_outcome(m0, id, code, out_v, resolver(yolo), done_at) == Err::<
                        crate::session_manager::Registry,
                        SessionCommandError,
                    >(e));
                    assert(!(m0.contains_key(id) && m0[id].session.current_command is Some
                        && m0[id].session.current_command->Some_0.state == CommandState::Executing));
                    completion_refused_message(e)
                },
            }
        },
        Err(e) => e,
    };
    let ghost m1 = manager@;
    let message = copy_string(&err);
    let res = manager.fail_command(id, message);
    proof {
        let at2 = choose|at: i64|
            session_result(#[trigger] fail_outcome(m1, id, err@, at), id, res) && manager@
                == registry_after(fail_outcome(m1, id, err@, at), m1);
        assert(manager@ == registry_after(fail_outcome(m1, id, err@, at2), m1));
    }
    Err(err)
}


} // verus!
