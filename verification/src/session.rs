use vstd::prelude::*;

use crate::marker::fill_random;

verus! {

/// Where a session stands with its current command.
#[derive(Debug, Clone, Copy, PartialEq, Eq, Structural)]
pub enum SessionState {
    Idle,
    Pending,
    Executing,
}

/// Where a command stands: waiting for approval, running, or resolved.
#[derive(Debug, Clone, Copy, PartialEq, Eq, Structural)]
pub enum CommandState {
    Pending,
    Executing,
    /// Ran to its end, with the exit code it returned.
    Completed(i32),
    Rejected,
    Aborted,
}

/// A command submitted to a session, with its outcome once resolved.
///
/// `id` is the 128-bit value of a random (version 4) UUID; `created_at` and
/// `resolved_at` are microseconds since the Unix epoch.
#[derive(Debug, Clone)]
pub struct CommandCard {
    pub id: u128,
    pub command: String,
    pub state: CommandState,
    pub exit_code: Option<i32>,
    pub output: String,
    pub created_at: i64,
    pub resolved_at: Option<i64>,
    pub resolved_by: Option<String>,
}

/// A tmux session that commands are run in.
///
/// `id` is the 128-bit value of a random (version 4) UUID; `created_at` is in
/// microseconds since the Unix epoch.
#[derive(Debug, Clone)]
pub struct Session {
    pub id: u128,
    pub name: String,
    pub host: String,
    pub state: SessionState,
    pub yolo: bool,
    pub current_command: Option<CommandCard>,
    pub created_at: i64,
}

/// A command card with its text as characters.
pub struct CardView {
    pub id: u128,
    pub command: Seq<char>,
    pub state: CommandState,
    pub exit_code: Option<i32>,
    pub output: Seq<char>,
    pub created_at: i64,
    pub resolved_at: Option<i64>,
    pub resolved_by: Option<Seq<char>>,
}

/// A session with its text as characters.
pub struct SessionView {
    pub id: u128,
    pub name: Seq<char>,
    pub host: Seq<char>,
    pub state: SessionState,
    pub yolo: bool,
    pub current_command: Option<CardView>,
    pub created_at: i64,
}

pub open spec fn opt_string_view(s: Option<String>) -> Option<Seq<char>> {
    match s {
        Some(v) => Some(v@),
        None => None,
    }
}

impl View for CommandCard {
    type V = CardView;

    open spec fn view(&self) -> CardView {
        CardView {
            id: self.id,
            command: self.command@,
            state: self.state,
            exit_code: self.exit_code,
            output: self.output@,
            created_at: self.created_at,
            resolved_at: self.resolved_at,
            resolved_by: opt_string_view(self.resolved_by),
        }
    }
}

impl View for Session {
    type V = SessionView;

    open spec fn view(&self) -> SessionView {
        SessionView {
            id: self.id,
            name: self.name@,
            host: self.host@,
            state: self.state,
            yolo: self.yolo,
            current_command: match self.current_command {
                Some(c) => Some(c@),
                None => None,
            },
            created_at: self.created_at,
        }
    }
}

/// A new card for `command`: pending, with no output, exit code or resolution.
pub open spec fn fresh_card(card: CardView, command: Seq<char>) -> bool {
    &&& card.command == command
    &&& card.state == CommandState::Pending
    &&& card.exit_code is None
    &&& card.output == Seq::<char>::empty()
    &&& card.resolved_at is None
    &&& card.resolved_by is None
}

/// `raw` with the version nibble of a UUID set to 4 and its two variant bits to `10`
/// (bits 76–79 and 62–63 of the 128-bit value, read big-endian as `Uuid::as_u128`
/// does): a version-4 (random) UUID.
pub open spec fn version4(raw: u128) -> u128 {
    (raw & 0xffff_ffff_ffff_0fff_3fff_ffff_ffff_ffffu128) | 0x0000_0000_0000_4000_8000_0000_0000_0000u128
}

/// The value of bytes read big-endian, most significant first.
pub open spec fn be_value(bytes: Seq<u8>) -> nat
    decreases bytes.len(),
{
    if bytes.len() == 0 {
        0
    } else {
        (be_value(bytes.drop_last()) * 256 + bytes.last()) as nat
    }
}

/// The 128-bit value (`Uuid::as_u128`, which reads the bytes big-endian) of the UUID
/// that `uuid::Builder::from_random_bytes` makes of `bytes`. The crate's source sets
/// the variant bits to `10` and the version nibble to 4 and keeps every other bit,
/// which the contract states.
#[verifier::external_body]
fn uuid_from_random_bytes(bytes: [u8; 16]) -> (id: u128)
    ensures
        id == version4(be_value(bytes@) as u128),
{
    uuid::Builder::from_random_bytes(bytes).into_uuid().as_u128()
}

/// A version-4 UUID made by the `uuid` crate from 16 bytes of the operating system's
/// random source; `None` when that source fails.
pub(crate) fn new_uuid() -> (r: Option<u128>)
    ensures
        r matches Some(id) ==> (exists|raw: u128| id == version4(raw)) && (id >> 76u128)
            & 0xfu128 == 4 && (id >> 62u128) & 0x3u128 == 2,
{
    let mut bytes = [0u8; 32];
    match fill_random(&mut bytes) {
        Ok(()) => {
            let mut random = [0u8; 16];
            let mut k: usize = 0;
            while k < 16
                invariant
                    k <= 16,
                    bytes@.len() == 32,
                    random@.len() == 16,
                decreases 16 - k,
            {
                random[k] = bytes[k];
                k += 1;
            }
            let id = uuid_from_random_bytes(random);
            let ghost raw = be_value(random@) as u128;
            assert((id >> 76u128) & 0xfu128 == 4 && (id >> 62u128) & 0x3u128 == 2) by (bit_vector)
                requires
                    id == (raw & 0xffff_ffff_ffff_0fff_3fff_ffff_ffff_ffffu128)
                        | 0x0000_0000_0000_4000_8000_0000_0000_0000u128,
            ;
            Some(id)
        },
        Err(_) => None,
    }
}

/// Declares `std::time::SystemTime`, which the clock wrappers below hand on.
#[verifier::external_type_specification]
#[verifier::external_body]
pub struct ExSystemTime(std::time::SystemTime);

/// The system clock's current time, from `std::time::SystemTime::now`. Nothing is
/// claimed of it.
#[verifier::external_body]
fn system_time_now() -> std::time::SystemTime {
    std::time::SystemTime::now()
}

/// How long after the Unix epoch `t` lies, from
/// `SystemTime::duration_since(UNIX_EPOCH)`; `None` where that call returns an error,
/// which its documentation says happens when `t` is before the epoch. Nothing is
/// claimed of the duration, since nothing here models the time held in `t`.
#[verifier::external_body]
fn duration_since_epoch(t: &std::time::SystemTime) -> Option<core::time::Duration> {
    match t.duration_since(std::time::UNIX_EPOCH) {
        Ok(d) => Some(d),
        Err(_) => None,
    }
}

/// The whole microseconds in `d`, from `Duration::as_micros`. Nothing is claimed of
/// the value, since nothing here models the time held in `d`.
#[verifier::external_body]
fn whole_micros(d: &core::time::Duration) -> u128 {
    d.as_micros()
}

/// A clock reading in microseconds since the Unix epoch as an `i64` timestamp: a reading
/// before the epoch (`None`) is the epoch, and one beyond the range of `i64` is its
/// largest value; any other reading is kept exactly.
pub fn timestamp_of_reading(reading: Option<u128>) -> (t: i64)
    ensures
        match reading {
            Some(m) => if m <= 0x7fff_ffff_ffff_ffff {
                t as int == m as int
            } else {
                t == 0x7fff_ffff_ffff_ffffi64
            },
            None => t == 0,
        },
{
    match reading {
        Some(m) => if m > 0x7fff_ffff_ffff_ffffu128 {
            0x7fff_ffff_ffff_ffffi64
        } else {
            m as i64
        },
        None => 0,
    }
}

/// The current time as microseconds since the Unix epoch (`timestamp_of_reading` of the
/// system clock's reading): a clock set before the epoch reads as the epoch, and one
/// beyond the range of `i64` as its largest value.
pub(crate) fn now_micros() -> (t: i64)
    ensures
        t >= 0,
{
    let now = system_time_now();
    let reading = match duration_since_epoch(&now) {
        Some(d) => Some(whole_micros(&d)),
        None => None,
    };
    timestamp_of_reading(reading)
}

/// A copy of `s`.
pub fn copy_string(s: &String) -> (r: String)
    ensures
        r == *s,
{
    s.clone()
}

fn copy_opt_string(s: &Option<String>) -> (r: Option<String>)
    ensures
        r == *s,
{
    match s {
        Some(v) => Some(v.clone()),
        None => None,
    }
}

impl CommandCard {
    /// A pending card for `command` under `id`, created now.
    pub fn with_id(id: u128, command: String) -> (card: Self)
        ensures
            card.id == id,
            card.command == command,
            fresh_card(card@, command@),
            card.created_at >= 0,
    {
        CommandCard {
            id,
            command,
            state: CommandState::Pending,
            exit_code: None,
            output: String::new(),
            created_at: now_micros(),
            resolved_at: None,
            resolved_by: None,
        }
    }

    /// A pending card for `command`, with a fresh version-4 UUID and the current time;
    /// `None` when no id can be drawn from the operating system's random source.
    pub fn new(command: String) -> (r: Option<Self>)
        ensures
            r matches Some(card) ==> card.command == command && fresh_card(card@, command@)
                && card.created_at >= 0 && exists|raw: u128| card.id == version4(raw),
    {
        match new_uuid() {
            Some(id) => Some(CommandCard::with_id(id, command)),
            None => None,
        }
    }

    /// A field-by-field copy.
    pub fn copy(&self) -> (r: Self)
        ensures
            r == *self,
    {
        CommandCard {
            id: self.id,
            command: copy_string(&self.command),
            state: self.state,
            exit_code: self.exit_code,
            output: copy_string(&self.output),
            created_at: self.created_at,
            resolved_at: self.resolved_at,
            resolved_by: copy_opt_string(&self.resolved_by),
        }
    }
}

impl Session {
    /// A field-by-field copy.
    pub fn copy(&self) -> (r: Self)
        ensures
            r == *self,
    {
        let current = match &self.current_command {
            Some(c) => Some(c.copy()),
            None => None,
        };
        Session {
            id: self.id,
            name: copy_string(&self.name),
            host: copy_string(&self.host),
            state: self.state,
            yolo: self.yolo,
            current_command: current,
            created_at: self.created_at,
        }
    }
}

} // verus!
