use std::collections::HashMap;

use vstd::prelude::*;
use vstd::std_specs::iter::IteratorSpec;

use crate::session::{
    fresh_card, new_uuid, now_micros, version4, CardView, CommandCard, CommandState, Session,
    SessionState, SessionView,
};

verus! {

broadcast use vstd::std_specs::hash::group_hash_axioms;

/// Why a command request was refused.
#[derive(Debug, Clone, Copy, PartialEq, Eq, Structural)]
pub enum SessionCommandError {
    NotFound,
    CommandAlreadyActive,
    PendingCommandRequired,
    ExecutingCommandRequired,
    /// No id could be drawn for the new command from the operating system's random
    /// source.
    IdUnavailable,
}

/// A registered session with the commands it has resolved, oldest first.
pub struct ManagedView {
    pub session: SessionView,
    pub history: Seq<CardView>,
}

/// Sessions by id.
pub type Registry = Map<u128, ManagedView>;

// ── Well-formedness ──────────────────────────────────────────────────────────

/// The session's state matches its current command: idle with none, pending with a
/// pending one, executing with an executing one.
pub open spec fn state_matches_command(s: SessionView) -> bool {
    match s.current_command {
        None => s.state == SessionState::Idle,
        Some(c) => (s.state == SessionState::Pending && c.state == CommandState::Pending) || (
        s.state == SessionState::Executing && c.state == CommandState::Executing),
    }
}

/// A card that has left its session: completed, rejected or aborted, with the time and
/// the party that resolved it.
pub open spec fn is_resolved(c: CardView) -> bool {
    &&& (c.state is Completed || c.state == CommandState::Rejected || c.state
        == CommandState::Aborted)
    &&& c.resolved_at is Some
    &&& c.resolved_by is Some
}

/// Session `id` is well formed: stored under its own id, in a state that matches its
/// current command, with a history of resolved cards only.
pub open spec fn entry_wf(id: u128, m: ManagedView) -> bool {
    &&& m.session.id == id
    &&& state_matches_command(m.session)
    &&& forall|i: int| 0 <= i < m.history.len() ==> is_resolved(#[trigger] m.history[i])
}

/// Every session of the registry is well formed.
pub open spec fn registry_wf(m: Registry) -> bool {
    forall|id: u128| #[trigger] m.contains_key(id) ==> entry_wf(id, m[id])
}

// ── Transitions ──────────────────────────────────────────────────────────────

/// Submitting `card` to session `id`: refused when the session is unknown or already
/// has a command; otherwise the card becomes the current command, pending approval.
pub open spec fn submit_outcome(m: Registry, id: u128, card: CardView) -> Result<
    Registry,
    SessionCommandError,
> {
    if !m.contains_key(id) {
        Err(SessionCommandError::NotFound)
    } else if m[id].session.current_command is Some {
        Err(SessionCommandError::CommandAlreadyActive)
    } else {
        Ok(
            m.insert(
                id,
                ManagedView {
                    session: SessionView {
                        state: SessionState::Pending,
                        current_command: Some(card),
                        ..m[id].session
                    },
                    history: m[id].history,
                },
            ),
        )
    }
}

/// Approving the command of session `id`: it must be pending; it starts executing.
pub open spec fn approve_outcome(m: Registry, id: u128) -> Result<Registry, SessionCommandError> {
    if !m.contains_key(id) {
        Err(SessionCommandError::NotFound)
    } else {
        match m[id].session.current_command {
            Some(c) => if c.state == CommandState::Pending {
                Ok(
                    m.insert(
                        id,
                        ManagedView {
                            session: SessionView {
                                state: SessionState::Executing,
                                current_command: Some(CardView { state: CommandState::Executing, ..c }),
                                ..m[id].session
                            },
                            history: m[id].history,
                        },
                    ),
                )
            } else {
                Err(SessionCommandError::PendingCommandRequired)
            },
            None => Err(SessionCommandError::PendingCommandRequired),
        }
    }
}

/// Session `id` after its current command left as `card`: idle, with `card` at the end
/// of its history.
pub open spec fn resolved_to(m: Registry, id: u128, card: CardView) -> Registry {
    m.insert(
        id,
        ManagedView {
            session: SessionView { state: SessionState::Idle, current_command: None, ..m[id].session },
            history: m[id].history.push(card),
        },
    )
}

/// Denying the command of session `id` at time `at`: it must be pending; it is rejected
/// by `"human"` and moves to the history.
pub open spec fn deny_outcome(m: Registry, id: u128, at: i64) -> Result<Registry, SessionCommandError> {
    if !m.contains_key(id) {
        Err(SessionCommandError::NotFound)
    } else {
        match m[id].session.current_command {
            Some(c) => if c.state == CommandState::Pending {
                Ok(
                    resolved_to(
                        m,
                        id,
                        CardView {
                            state: CommandState::Rejected,
                            resolved_at: Some(at),
                            resolved_by: Some("human"@),
                            ..c
                        },
                    ),
                )
            } else {
                Err(SessionCommandError::PendingCommandRequired)
            },
            None => Err(SessionCommandError::PendingCommandRequired),
        }
    }
}

/// Completing the command of session `id` at time `at`: it must be executing; it is
/// completed with `exit_code` and `output`, resolved by `by`, and moves to the history.
pub open spec fn complete_outcome(
    m: Registry,
    id: u128,
    exit_code: i32,
    output: Seq<char>,
    by: Seq<char>,
    at: i64,
) -> Result<Registry, SessionCommandError> {
    if !m.contains_key(id) {
        Err(SessionCommandError::NotFound)
    } else {
        match m[id].session.current_command {
            Some(c) => if c.state == CommandState::Executing {
                Ok(
                    resolved_to(
                        m,
                        id,
                        CardView {
                            state: CommandState::Completed(exit_code),
                            exit_code: Some(exit_code),
                            output,
                            resolved_at: Some(at),
                            resolved_by: Some(by),
                            ..c
                        },
                    ),
                )
            } else {
                Err(SessionCommandError::ExecutingCommandRequired)
            },
            None => Err(SessionCommandError::ExecutingCommandRequired),
        }
    }
}

/// Failing the command of session `id` at time `at`, whatever state it is in: it is
/// aborted with `output` as its output, resolved by `"system"`, and moves to the
/// history.
pub open spec fn fail_outcome(m: Registry, id: u128, output: Seq<char>, at: i64) -> Result<
    Registry,
    SessionCommandError,
> {
    if !m.contains_key(id) {
        Err(SessionCommandError::NotFound)
    } else {
        match m[id].session.current_command {
            Some(c) => Ok(
                resolved_to(
                    m,
                    id,
                    CardView {
                        state: CommandState::Aborted,
                        output,
                        resolved_at: Some(at),
                        resolved_by: Some("system"@),
                        ..c
                    },
                ),
            ),
            None => Err(SessionCommandError::ExecutingCommandRequired),
        }
    }
}

/// The newest `limit` cards of a history, newest first.
pub open spec fn recent_first(history: Seq<CardView>, limit: nat) -> Seq<CardView> {
    history.reverse().take(
        if limit <= history.len() {
            limit as int
        } else {
            history.len() as int
        },
    )
}

// ── The manager ──────────────────────────────────────────────────────────────

struct ManagedSession {
    session: Session,
    history: Vec<CommandCard>,
}

pub open spec fn cards_view(h: Seq<CommandCard>) -> Seq<CardView> {
    h.map_values(|c: CommandCard| c@)
}

spec fn managed_view(m: ManagedSession) -> ManagedView {
    ManagedView { session: m.session@, history: cards_view(m.history@) }
}

/// The registry of sessions and the lifecycle of their commands: submitted, then
/// approved and executed or denied, then resolved into the history.
pub struct SessionManager {
    sessions: HashMap<u128, ManagedSession>,
}

impl View for SessionManager {
    type V = Registry;

    closed spec fn view(&self) -> Registry {
        self.sessions@.map_values(|m: ManagedSession| managed_view(m))
    }
}

pub open spec fn sessions_view(v: Seq<Session>) -> Seq<SessionView> {
    v.map_values(|s: Session| s@)
}

/// `listed` holds the sessions registered under `ids`, in that order, and `ids` names
/// every registered session.
pub open spec fn listed_under(m: Registry, ids: Seq<u128>, listed: Seq<SessionView>) -> bool {
    &&& ids.len() == listed.len()
    &&& forall|k: u128| m.contains_key(k) <==> #[trigger] ids.contains(k)
    &&& forall|i: int| 0 <= i < ids.len() ==> #[trigger] listed[i] == m[ids[i]].session
}

/// The result of an operation that gives back the session it changed.
pub open spec fn session_result(
    outcome: Result<Registry, SessionCommandError>,
    id: u128,
    r: Result<Session, SessionCommandError>,
) -> bool {
    match outcome {
        Ok(m) => r is Ok && r->Ok_0@ == m[id].session,
        Err(e) => r == Err::<Session, SessionCommandError>(e),
    }
}

/// The registry after an operation: the outcome's, or unchanged when it is refused.
pub open spec fn registry_after(outcome: Result<Registry, SessionCommandError>, old_m: Registry) -> Registry {
    match outcome {
        Ok(m) => m,
        Err(_) => old_m,
    }
}

impl SessionManager {
    /// Every manager's registry is well formed: construction and every operation keep
    /// each session stored under its own id, in a state that matches its current command,
    /// with a history of resolved cards only.
    #[verifier::type_invariant]
    spec fn inv(&self) -> bool {
        registry_wf(self@)
    }

    /// Takes session `id` out of the map, for an update.
    fn take(&mut self, id: u128) -> (r: Option<ManagedSession>)
        ensures
            registry_wf(final(self)@),
            match r {
                Some(ms) => old(self)@.contains_key(id) && managed_view(ms) == old(self)@[id]
                    && final(self)@ == old(self)@.remove(id),
                None => !old(self)@.contains_key(id) && final(self)@ == old(self)@,
            },
    {
        proof {
            use_type_invariant(&*self);
        }
        let mut sessions = HashMap::new();
        std::mem::swap(&mut sessions, &mut self.sessions);
        let r = sessions.remove(&id);
        proof {
            let v = sessions@.map_values(|m: ManagedSession| managed_view(m));
            assert(v =~= old(self)@.remove(id));
            assert(registry_wf(v));
        }
        self.sessions = sessions;
        assert(self@ =~= old(self)@.remove(id));
        proof {
            if r is None {
                assert(old(self)@.remove(id) =~= old(self)@);
            }
        }
        r
    }

    /// Puts session `id` (back) into the map.
    fn put(&mut self, id: u128, ms: ManagedSession)
        requires
            entry_wf(id, managed_view(ms)),
        ensures
            registry_wf(final(self)@),
            final(self)@ == old(self)@.insert(id, managed_view(ms)),
    {
        proof {
            use_type_invariant(&*self);
        }
        let mut sessions = HashMap::new();
        std::mem::swap(&mut sessions, &mut self.sessions);
        sessions.insert(id, ms);
        proof {
            let v = sessions@.map_values(|m: ManagedSession| managed_view(m));
            assert(v =~= old(self)@.insert(id, managed_view(ms)));
            assert(registry_wf(v));
        }
        self.sessions = sessions;
        assert(self@ =~= old(self)@.insert(id, managed_view(ms)));
    }

    pub fn new() -> (m: Self)
        ensures
            m@ == Registry::empty(),
            registry_wf(m@),
    {
        let m = SessionManager { sessions: HashMap::new() };
        assert(m@ =~= Registry::empty());
        m
    }

    /// Registers a new idle session named `name` on `host` under `id`, created now,
    /// unless `id` is already registered: then nothing changes and `None` is returned.
    pub fn create_with_id(&mut self, id: u128, name: String, host: String) -> (r: Option<Session>)
        ensures
            registry_wf(final(self)@),
            r is None <==> old(self)@.contains_key(id),
            r is None ==> final(self)@ == old(self)@,
            r matches Some(s) ==> {
                &&& s.id == id
                &&& s.name == name
                &&& s.host == host
                &&& s.state == SessionState::Idle
                &&& !s.yolo
                &&& s.current_command is None
                &&& s.created_at >= 0
                &&& final(self)@ == old(self)@.insert(id, ManagedView { session: s@, history: seq![] })
            },
    {
        proof {
            use_type_invariant(&*self);
        }
        if self.sessions.contains_key(&id) {
            return None;
        }
        let session = Session {
            id,
            name,
            host,
            state: SessionState::Idle,
            yolo: false,
            current_command: None,
            created_at: now_micros(),
        };
        let stored = session.copy();
        self.put(id, ManagedSession { session: stored, history: Vec::new() });
        assert(cards_view(Seq::<CommandCard>::empty()) =~= Seq::<CardView>::empty());
        Some(session)
    }

    /// Registers a new idle session named `name` on `host` under a version-4 UUID drawn
    /// from the operating system's random source (`create_with_id`). `None`, with
    /// nothing changed, when the random source fails or the id drawn is already
    /// registered.
    pub fn create(&mut self, name: String, host: String) -> (r: Option<Session>)
        ensures
            registry_wf(final(self)@),
            r is None ==> final(self)@ == old(self)@,
            r matches Some(s) ==> {
                &&& !old(self)@.contains_key(s.id)
                &&& exists|raw: u128| s.id == version4(raw)
                &&& s.name == name
                &&& s.host == host
                &&& s.state == SessionState::Idle
                &&& !s.yolo
                &&& s.current_command is None
                &&& s.created_at >= 0
                &&& final(self)@ == old(self)@.insert(
                    s.id,
                    ManagedView { session: s@, history: seq![] },
                )
            },
    {
        proof {
            use_type_invariant(&*self);
        }
        match new_uuid() {
            Some(id) => self.create_with_id(id, name, host),
            None => None,
        }
    }

    /// The session registered under `id`.
    pub fn get(&self, id: u128) -> (r: Option<Session>)
        ensures
            match r {
                Some(s) => self@.contains_key(id) && s@ == self@[id].session,
                None => !self@.contains_key(id),
            },
    {
        match self.sessions.get(&id) {
            Some(ms) => Some(ms.session.copy()),
            None => None,
        }
    }

    /// Unregisters session `id`; whether it was registered.
    pub fn delete(&mut self, id: u128) -> (removed: bool)
        ensures
            registry_wf(final(self)@),
            removed == old(self)@.contains_key(id),
            final(self)@ == old(self)@.remove(id),
    {
        proof {
            use_type_invariant(&*self);
        }
        let r = self.take(id);
        r.is_some()
    }

    /// Every registered session, once each, in no particular order: the sessions
    /// registered under `ids`, which name every registered session.
    pub fn list(&self) -> (v: Vec<Session>)
        ensures
            v@.len() == self@.dom().len(),
            exists|ids: Seq<u128>| #[trigger] listed_under(self@, ids, sessions_view(v@)),
    {
        let mut v: Vec<Session> = Vec::new();
        let ghost m = self.sessions@;
        let ghost seq = vstd::std_specs::hash::spec_hash_map_iter(&self.sessions).remaining();
        for entry in it: self.sessions.iter()
            invariant
                m == self.sessions@,
                it.seq() == seq,
                seq == vstd::std_specs::hash::spec_hash_map_iter(&self.sessions).remaining(),
                v@.len() == it.index(),
                forall|i: int|
                    0 <= i < it.index() ==> #[trigger] v@[i] == seq[i].1.session,
        {
            v.push(entry.1.session.copy());
        }
        proof {
            let ids = seq.map_values(|p: (&u128, &ManagedSession)| *p.0);
            assert(self@.dom() =~= m.dom());
            assert forall|i: int| 0 <= i < ids.len() implies #[trigger] v@[i]@ == self@[ids[i]].session by {
                assert(m.contains_key(*seq[i].0) && m[*seq[i].0] == *seq[i].1);
                assert(v@[i] == m[ids[i]].session);
                assert(self@[ids[i]] == managed_view(m[ids[i]]));
            }
            assert forall|i: int| 0 <= i < ids.len() implies #[trigger] sessions_view(v@)[i]
                == self@[ids[i]].session by {
                assert(v@[i]@ == self@[ids[i]].session);
            }
            assert forall|k: u128| self@.contains_key(k) <==> #[trigger] ids.contains(k) by {
                if self@.contains_key(k) {
                    assert(seq.contains((&k, &m[k])));
                    let i = choose|i: int| 0 <= i < seq.len() && seq[i] == (&k, &m[k]);
                    assert(ids[i] == k);
                }
                if ids.contains(k) {
                    let i = choose|i: int| 0 <= i < ids.len() && ids[i] == k;
                    assert(m.contains_key(*seq[i].0));
                }
            }
            assert(listed_under(self@, ids, sessions_view(v@)));
        }
        v
    }

    /// Submits `command` to session `id`, to wait for approval.
    pub fn submit_command(&mut self, id: u128, command: String) -> (r: Result<
        Session,
        SessionCommandError,
    >)
        ensures
            registry_wf(final(self)@),
            match r {
                Ok(s) => {
                    &&& s.current_command is Some
                    &&& fresh_card(s@.current_command->0, command@)
                    &&& submit_outcome(old(self)@, id, s@.current_command->0) == Ok::<
                        Registry,
                        SessionCommandError,
                    >(final(self)@)
                    &&& s@ == final(self)@[id].session
                },
                Err(e) => final(self)@ == old(self)@ && if e == SessionCommandError::IdUnavailable {
                    submit_outcome(old(self)@, id, arbitrary()) is Ok
                } else {
                    submit_outcome(old(self)@, id, arbitrary()) == Err::<Registry, SessionCommandError>(e)
                },
            },
    {
        proof {
            use_type_invariant(&*self);
        }
        let ms = match self.take(id) {
            Some(ms) => ms,
            None => {
                return Err(SessionCommandError::NotFound);
            },
        };
        if ms.session.current_command.is_some() {
            self.put(id, ms);
            assert(old(self)@.remove(id).insert(id, old(self)@[id]) =~= old(self)@);
            return Err(SessionCommandError::CommandAlreadyActive);
        }
        let card = match CommandCard::new(command) {
            Some(card) => card,
            None => {
                self.put(id, ms);
                assert(old(self)@.remove(id).insert(id, old(self)@[id]) =~= old(self)@);
                return Err(SessionCommandError::IdUnavailable);
            },
        };
        let ManagedSession { session, history } = ms;
        let session = Session { state: SessionState::Pending, current_command: Some(card), ..session };
        let result = session.copy();
        self.put(id, ManagedSession { session, history });
        assert(self@ =~= submit_outcome(old(self)@, id, result@.current_command->0)->Ok_0);
        Ok(result)
    }

    /// Approves the pending command of session `id`, which starts executing.
    pub fn approve_command(&mut self, id: u128) -> (r: Result<Session, SessionCommandError>)
        ensures
            registry_wf(final(self)@),
            session_result(approve_outcome(old(self)@, id), id, r),
            final(self)@ == registry_after(approve_outcome(old(self)@, id), old(self)@),
    {
        proof {
            use_type_invariant(&*self);
        }
        let ms = match self.take(id) {
            Some(ms) => ms,
            None => {
                return Err(SessionCommandError::NotFound);
            },
        };
        let ManagedSession { session, history } = ms;
        match session.current_command {
            Some(current) => {
                match current.state {
                    CommandState::Pending => {
                        let card = CommandCard { state: CommandState::Executing, ..current };
                        let session = Session {
                            state: SessionState::Executing,
                            current_command: Some(card),
                            ..session
                        };
                        let result = session.copy();
                        self.put(id, ManagedSession { session, history });
                        assert(self@ =~= approve_outcome(old(self)@, id)->Ok_0);
                        Ok(result)
                    },
                    _ => {
                        let session = Session { current_command: Some(current), ..session };
                        self.put(id, ManagedSession { session, history });
                        assert(old(self)@.remove(id).insert(id, old(self)@[id]) =~= old(self)@);
                        Err(SessionCommandError::PendingCommandRequired)
                    },
                }
            },
            None => {
                let session = Session { current_command: None, ..session };
                self.put(id, ManagedSession { session, history });
                assert(old(self)@.remove(id).insert(id, old(self)@[id]) =~= old(self)@);
                Err(SessionCommandError::PendingCommandRequired)
            },
        }
    }

    /// Takes the current card of session `id` if it is in state `required`; otherwise
    /// leaves everything as it was and reports `err`.
    fn take_current(&mut self, id: u128, required: Option<CommandState>, err: SessionCommandError) -> (r: Result<
        (ManagedSession, CommandCard),
        SessionCommandError,
    >)
        ensures
            registry_wf(final(self)@),
            match r {
                Ok((ms, c)) => {
                    &&& old(self)@.contains_key(id)
                    &&& old(self)@[id].session.current_command == Some(c@)
                    &&& (required matches Some(st) ==> c.state == st)
                    &&& ms.session.current_command is None
                    &&& managed_view(ms) == (ManagedView {
                        session: SessionView { current_command: None, ..old(self)@[id].session },
                        ..old(self)@[id]
                    })
                    &&& final(self)@ == old(self)@.remove(id)
                },
                Err(e) => {
                    &&& final(self)@ == old(self)@
                    &&& (!old(self)@.contains_key(id) ==> e == SessionCommandError::NotFound)
                    &&& (old(self)@.contains_key(id) ==> e == err && match old(
                        self,
                    )@[id].session.current_command {
                        Some(c) => required matches Some(st) && c.state != st,
                        None => true,
                    })
                },
            },
    {
        proof {
            use_type_invariant(&*self);
        }
        let mut ms = match self.take(id) {
            Some(ms) => ms,
            None => {
                return Err(SessionCommandError::NotFound);
            },
        };
        let current = match ms.session.current_command.take() {
            Some(c) => c,
            None => {
                self.put(id, ms);
                assert(old(self)@.remove(id).insert(id, old(self)@[id]) =~= old(self)@);
                return Err(err);
            },
        };
        let ok = match required {
            Some(st) => same_command_state(current.state, st),
            None => true,
        };
        if !ok {
            ms.session.current_command = Some(current);
            self.put(id, ms);
            assert(old(self)@.remove(id).insert(id, old(self)@[id]) =~= old(self)@);
            return Err(err);
        }
        Ok((ms, current))
    }

    /// Puts session `id` back, idle, with `card` at the end of its history.
    fn put_resolved(&mut self, id: u128, ms: ManagedSession, card: CommandCard)
        requires
            managed_view(ms).session.id == id,
            forall|i: int|
                0 <= i < managed_view(ms).history.len() ==> is_resolved(
                    #[trigger] managed_view(ms).history[i],
                ),
            is_resolved(card@),
        ensures
            registry_wf(final(self)@),
            final(self)@ == old(self)@.insert(
                id,
                ManagedView {
                    session: SessionView {
                        state: SessionState::Idle,
                        current_command: None,
                        ..managed_view(ms).session
                    },
                    history: managed_view(ms).history.push(card@),
                },
            ),
    {
        let ManagedSession { session, mut history } = ms;
        let ghost h = history@;
        let session = Session { state: SessionState::Idle, current_command: None, ..session };
        history.push(card);
        assert(cards_view(history@) =~= cards_view(h).push(card@));
        self.put(id, ManagedSession { session, history });
    }

    /// The session under `id`, which is known to be registered.
    fn session_copy(&self, id: u128) -> (s: Session)
        requires
            self@.contains_key(id),
        ensures
            s@ == self@[id].session,
    {
        match self.sessions.get(&id) {
            Some(ms) => ms.session.copy(),
            None => {
                proof {
                    assert(false);
                }
                Session {
                    id,
                    name: String::new(),
                    host: String::new(),
                    state: SessionState::Idle,
                    yolo: false,
                    current_command: None,
                    created_at: 0,
                }
            },
        }
    }

    /// Denies the pending command of session `id`: it is rejected and moves to the
    /// history.
    pub fn deny_command(&mut self, id: u128) -> (r: Result<Session, SessionCommandError>)
        ensures
            registry_wf(final(self)@),
            exists|at: i64|
                {
                    &&& session_result(#[trigger] deny_outcome(old(self)@, id, at), id, r)
                    &&& final(self)@ == registry_after(deny_outcome(old(self)@, id, at), old(self)@)
                },
    {
        proof {
            use_type_invariant(&*self);
        }
        let (ms, current) = match self.take_current(
            id,
            Some(CommandState::Pending),
            SessionCommandError::PendingCommandRequired,
        ) {
            Ok(t) => t,
            Err(e) => {
                assert(deny_outcome(old(self)@, id, 0) == Err::<Registry, SessionCommandError>(e));
                return Err(e);
            },
        };
        let at = now_micros();
        let rejected = CommandCard {
            state: CommandState::Rejected,
            resolved_at: Some(at),
            resolved_by: Some("human".to_owned()),
            ..current
        };
        self.put_resolved(id, ms, rejected);
        assert(self@ =~= deny_outcome(old(self)@, id, at)->Ok_0);
        Ok(self.session_copy(id))
    }

    /// Completes the executing command of session `id` with its exit code and output;
    /// it moves to the history, resolved by `resolved_by`.
    pub fn complete_command(
        &mut self,
        id: u128,
        exit_code: i32,
        output: String,
        resolved_by: &str,
    ) -> (r: Result<Session, SessionCommandError>)
        ensures
            registry_wf(final(self)@),
            exists|at: i64|
                {
                    &&& session_result(
                        #[trigger] complete_outcome(old(self)@, id, exit_code, output@, resolved_by@, at),
                        id,
                        r,
                    )
                    &&& final(self)@ == registry_after(
                        complete_outcome(old(self)@, id, exit_code, output@, resolved_by@, at),
                        old(self)@,
                    )
                },
    {
        proof {
            use_type_invariant(&*self);
        }
        let (ms, current) = match self.take_current(
            id,
            Some(CommandState::Executing),
            SessionCommandError::ExecutingCommandRequired,
        ) {
            Ok(t) => t,
            Err(e) => {
                assert(complete_outcome(old(self)@, id, exit_code, output@, resolved_by@, 0)
                    == Err::<Registry, SessionCommandError>(e));
                return Err(e);
            },
        };
        let at = now_micros();
        let completed = CommandCard {
            state: CommandState::Completed(exit_code),
            exit_code: Some(exit_code),
            output,
            resolved_at: Some(at),
            resolved_by: Some(resolved_by.to_owned()),
            ..current
        };
        self.put_resolved(id, ms, completed);
        assert(self@ =~= complete_outcome(old(self)@, id, exit_code, output@, resolved_by@, at)->Ok_0);
        Ok(self.session_copy(id))
    }

    /// Aborts the current command of session `id`, whatever its state, with `output`;
    /// it moves to the history, resolved by `"system"`.
    pub fn fail_command(&mut self, id: u128, output: String) -> (r: Result<Session, SessionCommandError>)
        ensures
            registry_wf(final(self)@),
            exists|at: i64|
                {
                    &&& session_result(#[trigger] fail_outcome(old(self)@, id, output@, at), id, r)
                    &&& final(self)@ == registry_after(fail_outcome(old(self)@, id, output@, at), old(self)@)
                },
    {
        proof {
            use_type_invariant(&*self);
        }
        let (ms, current) = match self.take_current(
            id,
            None,
            SessionCommandError::ExecutingCommandRequired,
        ) {
            Ok(t) => t,
            Err(e) => {
                assert(fail_outcome(old(self)@, id, output@, 0) == Err::<Registry, SessionCommandError>(e));
                return Err(e);
            },
        };
        let at = now_micros();
        let aborted = CommandCard {
            state: CommandState::Aborted,
            output,
            resolved_at: Some(at),
            resolved_by: Some("system".to_owned()),
            ..current
        };
        self.put_resolved(id, ms, aborted);
        assert(self@ =~= fail_outcome(old(self)@, id, output@, at)->Ok_0);
        Ok(self.session_copy(id))
    }

    /// The newest `limit` resolved commands of session `id`, newest first.
    pub fn list_commands(&self, id: u128, limit: usize) -> (r: Result<Vec<CommandCard>, SessionCommandError>)
        ensures
            match r {
                Ok(v) => self@.contains_key(id) && cards_view(v@) == recent_first(
                    self@[id].history,
                    limit as nat,
                ),
                Err(e) => !self@.contains_key(id) && e == SessionCommandError::NotFound,
            },
            r matches Ok(v) ==> {
                &&& v.len() == if (limit as int) < self@[id].history.len() {
                    limit as int
                } else {
                    self@[id].history.len() as int
                }
                &&& forall|i: int|
                    0 <= i < v.len() ==> (#[trigger] v@[i])@ == self@[id].history[self@[id].history.len()
                        - 1 - i]
            },
    {
        let ms = match self.sessions.get(&id) {
            Some(ms) => ms,
            None => {
                return Err(SessionCommandError::NotFound);
            },
        };
        let ghost h = cards_view(ms.history@);
        let n = ms.history.len();
        let count = if limit <= n { limit } else { n };
        let mut out: Vec<CommandCard> = Vec::new();
        let mut k: usize = 0;
        while k < count
            invariant
                k <= count <= n,
                n == ms.history@.len(),
                h == cards_view(ms.history@),
                cards_view(out@) == h.reverse().take(k as int),
            decreases count - k,
        {
            let ghost before = out@;
            out.push(ms.history[n - 1 - k].copy());
            k += 1;
            assert(cards_view(out@) =~= cards_view(before).push(h[n - k]));
            assert(h.reverse().take(k as int) =~= h.reverse().take(k - 1 as int).push(h.reverse()[k - 1]));
        }
        assert forall|i: int| 0 <= i < out.len() implies (#[trigger] out@[i])@ == h[n - 1 - i] by {
            assert(cards_view(out@)[i] == out@[i]@);
        }
        Ok(out)
    }
}

fn same_command_state(a: CommandState, b: CommandState) -> (r: bool)
    ensures
        r == (a == b),
{
    match (a, b) {
        (CommandState::Pending, CommandState::Pending) => true,
        (CommandState::Executing, CommandState::Executing) => true,
        (CommandState::Completed(x), CommandState::Completed(y)) => x == y,
        (CommandState::Rejected, CommandState::Rejected) => true,
        (CommandState::Aborted, CommandState::Aborted) => true,
        _ => false,
    }
}

} // verus!
