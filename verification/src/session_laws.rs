use vstd::prelude::*;

use crate::session::{CardView, CommandState, SessionState, SessionView};
use crate::session_manager::{
    approve_outcome, complete_outcome, deny_outcome, fail_outcome, recent_first, ManagedView,
    Registry, SessionCommandError, submit_outcome,
};

verus! {

/// `after` keeps every session of `before`, with its history extended at the end, and
/// registers no other.
pub open spec fn histories_extended(before: Registry, after: Registry) -> bool {
    &&& after.dom() == before.dom()
    &&& forall|k: u128| #[trigger]
        before.contains_key(k) ==> after[k].history.len() >= before[k].history.len()
            && after[k].history.subrange(0, before[k].history.len() as int) == before[k].history
}

/// No command operation forgets or rewrites a resolved command, or registers or drops
/// a session: histories only grow at the end.
pub proof fn lemma_history_only_grows(
    m: Registry,
    id: u128,
    card: CardView,
    exit_code: i32,
    output: Seq<char>,
    by: Seq<char>,
    at: i64,
)
    ensures
        submit_outcome(m, id, card) is Ok ==> histories_extended(m, submit_outcome(m, id, card)->Ok_0),
        approve_outcome(m, id) is Ok ==> histories_extended(m, approve_outcome(m, id)->Ok_0),
        deny_outcome(m, id, at) is Ok ==> histories_extended(m, deny_outcome(m, id, at)->Ok_0),
        complete_outcome(m, id, exit_code, output, by, at) is Ok ==> histories_extended(
            m,
            complete_outcome(m, id, exit_code, output, by, at)->Ok_0,
        ),
        fail_outcome(m, id, output, at) is Ok ==> histories_extended(
            m,
            fail_outcome(m, id, output, at)->Ok_0,
        ),
{
    if m.contains_key(id) {
        let outcomes = seq![
            submit_outcome(m, id, card),
            approve_outcome(m, id),
            deny_outcome(m, id, at),
            complete_outcome(m, id, exit_code, output, by, at),
            fail_outcome(m, id, output, at),
        ];
        assert forall|j: int| 0 <= j < 5 && (#[trigger] outcomes[j]) is Ok implies histories_extended(
            m,
            outcomes[j]->Ok_0,
        ) by {
            let after = outcomes[j]->Ok_0;
            assert(after.dom() =~= m.dom());
            assert forall|k: u128| #[trigger] m.contains_key(k) implies after[k].history.len()
                >= m[k].history.len() && after[k].history.subrange(0, m[k].history.len() as int)
                == m[k].history by {
                assert(after[k].history.subrange(0, m[k].history.len() as int) =~= m[k].history);
            }
        }
        assert(outcomes[0] == submit_outcome(m, id, card));
        assert(outcomes[1] == approve_outcome(m, id));
        assert(outcomes[2] == deny_outcome(m, id, at));
        assert(outcomes[3] == complete_outcome(m, id, exit_code, output, by, at));
        assert(outcomes[4] == fail_outcome(m, id, output, at));
    }
}

/// A session holds one command at a time: once a command is submitted, a second
/// submission is refused until the first is resolved.
pub proof fn lemma_one_command_at_a_time(m: Registry, id: u128, first: CardView, second: CardView)
    requires
        submit_outcome(m, id, first) is Ok,
    ensures
        submit_outcome(submit_outcome(m, id, first)->Ok_0, id, second) == Err::<
            Registry,
            SessionCommandError,
        >(SessionCommandError::CommandAlreadyActive),
{
}

/// A submitted command runs only once approved: completing it before approval is
/// refused, approving it succeeds, and once approved it can no longer be denied or
/// approved again.
pub proof fn lemma_approval_gates_execution(
    m: Registry,
    id: u128,
    card: CardView,
    exit_code: i32,
    output: Seq<char>,
    by: Seq<char>,
    at: i64,
)
    requires
        submit_outcome(m, id, card) is Ok,
        card.state == CommandState::Pending,
    ensures
        ({
            let submitted = submit_outcome(m, id, card)->Ok_0;
            &&& complete_outcome(submitted, id, exit_code, output, by, at) == Err::<
                Registry,
                SessionCommandError,
            >(SessionCommandError::ExecutingCommandRequired)
            &&& approve_outcome(submitted, id) is Ok
            &&& deny_outcome(approve_outcome(submitted, id)->Ok_0, id, at) == Err::<
                Registry,
                SessionCommandError,
            >(SessionCommandError::PendingCommandRequired)
            &&& approve_outcome(approve_outcome(submitted, id)->Ok_0, id) == Err::<
                Registry,
                SessionCommandError,
            >(SessionCommandError::PendingCommandRequired)
        }),
{
}

/// Submitting, approving and completing a command leaves the session idle, and the
/// command, completed with its exit code and output, is the newest of its history.
pub proof fn lemma_completed_command_is_newest(
    m: Registry,
    id: u128,
    card: CardView,
    exit_code: i32,
    output: Seq<char>,
    by: Seq<char>,
    at: i64,
)
    requires
        submit_outcome(m, id, card) is Ok,
        card.state == CommandState::Pending,
    ensures
        ({
            let approved = approve_outcome(submit_outcome(m, id, card)->Ok_0, id)->Ok_0;
            let done = complete_outcome(approved, id, exit_code, output, by, at);
            &&& done is Ok
            &&& done->Ok_0[id].session.state == SessionState::Idle
            &&& done->Ok_0[id].session.current_command is None
            &&& recent_first(done->Ok_0[id].history, 1) == seq![
                CardView {
                    state: CommandState::Completed(exit_code),
                    exit_code: Some(exit_code),
                    output,
                    resolved_at: Some(at),
                    resolved_by: Some(by),
                    ..card
                },
            ]
        }),
{
    let approved = approve_outcome(submit_outcome(m, id, card)->Ok_0, id)->Ok_0;
    let done = complete_outcome(approved, id, exit_code, output, by, at)->Ok_0;
    let h = done[id].history;
    assert(h.reverse()[0] == h.last());
    assert(recent_first(h, 1) =~= seq![h.last()]);
}

/// A pending command that is denied is the newest of its history, rejected by
/// `"human"`, and the session is idle again.
pub proof fn lemma_denied_command_is_newest(m: Registry, id: u128, card: CardView, at: i64)
    requires
        submit_outcome(m, id, card) is Ok,
        card.state == CommandState::Pending,
    ensures
        ({
            let denied = deny_outcome(submit_outcome(m, id, card)->Ok_0, id, at);
            &&& denied is Ok
            &&& denied->Ok_0[id].session.state == SessionState::Idle
            &&& denied->Ok_0[id].session.current_command is None
            &&& recent_first(denied->Ok_0[id].history, 1) == seq![
                CardView {
                    state: CommandState::Rejected,
                    resolved_at: Some(at),
                    resolved_by: Some("human"@),
                    ..card
                },
            ]
        }),
{
    let denied = deny_outcome(submit_outcome(m, id, card)->Ok_0, id, at)->Ok_0;
    let h = denied[id].history;
    assert(h.reverse()[0] == h.last());
    assert(recent_first(h, 1) =~= seq![h.last()]);
}

/// `after` registers the sessions of `before` other than `id`, each as it was.
pub open spec fn others_unchanged(before: Registry, after: Registry, id: u128) -> bool {
    forall|k: u128|
        k != id ==> (#[trigger] after.contains_key(k) <==> before.contains_key(k)) && (
        before.contains_key(k) ==> after[k] == before[k])
}

/// A created session reads back as it was created, with an empty history, and no other
/// session changes.
pub proof fn lemma_created_session_reads_back(m: Registry, s: SessionView)
    ensures
        ({
            let after = m.insert(s.id, ManagedView { session: s, history: seq![] });
            &&& after.contains_key(s.id)
            &&& after[s.id].session == s
            &&& after[s.id].history == Seq::<CardView>::empty()
            &&& others_unchanged(m, after, s.id)
        }),
{
}

/// A deleted session is gone, and no other session changes.
pub proof fn lemma_deleted_session_is_gone(m: Registry, id: u128)
    ensures
        !m.remove(id).contains_key(id),
        others_unchanged(m, m.remove(id), id),
{
}

/// A command request on one session leaves every other session as it was.
pub proof fn lemma_requests_touch_one_session(
    m: Registry,
    id: u128,
    card: CardView,
    exit_code: i32,
    output: Seq<char>,
    by: Seq<char>,
    at: i64,
)
    ensures
        submit_outcome(m, id, card) is Ok ==> others_unchanged(m, submit_outcome(m, id, card)->Ok_0, id),
        approve_outcome(m, id) is Ok ==> others_unchanged(m, approve_outcome(m, id)->Ok_0, id),
        deny_outcome(m, id, at) is Ok ==> others_unchanged(m, deny_outcome(m, id, at)->Ok_0, id),
        complete_outcome(m, id, exit_code, output, by, at) is Ok ==> others_unchanged(
            m,
            complete_outcome(m, id, exit_code, output, by, at)->Ok_0,
            id,
        ),
        fail_outcome(m, id, output, at) is Ok ==> others_unchanged(
            m,
            fail_outcome(m, id, output, at)->Ok_0,
            id,
        ),
{
}


/// Listing the newest `k` cards of a history gives as many as there are, up to `k`,
/// newest first: card `i` of the listing is the `i`-th newest of the history.
pub proof fn lemma_listing_is_newest_first(h: Seq<CardView>, k: nat)
    ensures
        recent_first(h, k).len() == if k < h.len() {
            k as int
        } else {
            h.len() as int
        },
        forall|i: int| 0 <= i < recent_first(h, k).len() ==> #[trigger] recent_first(h, k)[i] == h[h.len() - 1 - i],
{
}

} // verus!
