//! What holds of every manager.
use vstd::prelude::*;

use crate::manager;
use crate::manager::{Auth, Failure, Goal, Manager, Next, StoredAuth, TokenFailure, TokenResponse};

verus! {

/// Tokens that were remembered are served from memory for as long as the cache lives, and not a
/// millisecond longer.
pub proof fn law_cache_lives_for_its_ttl(m: Manager, a: Auth, at: u64, now: u64)
    requires
        at <= now,
    ensures
        manager::cached(manager::remember(m, a, at), now) == (if now - at < m.ttl {
            Some(a)
        } else {
            None
        }),
{
}

/// Without a cache lifetime nothing is served from memory: every request reads the durable store.
pub proof fn law_ttl_zero_disables_the_cache<E>(m: Manager, now: u64)
    requires
        m.ttl == 0,
        m.test_auth is None,
    ensures
        manager::ask::<E>(m, now) == Next::<E>::LockRead,
        manager::load::<E>(m, now) == (Next::<E>::Load { then: Goal::Serve }),
{
}

/// A read of fresh tokens serves them, and a further request within the cache lifetime gets the
/// same tokens with no read of the durable store, whatever that holds by then.
pub proof fn law_reads_are_shared<E>(m: Manager, a: StoredAuth, at: u64, now: u64)
    requires
        m.test_auth is None,
        at <= now,
        now - at < m.ttl,
        manager::fresh(m, a@, at),
        manager::fresh(m, a@, now),
    ensures
        ({
            let (n, step) = manager::after_load::<E>(m, Goal::Serve, Ok(Some(a)), at);
            &&& step == (Next::<E>::Done { result: Ok(a@) })
            &&& manager::ask::<E>(n, now) == (Next::<E>::Done { result: Ok(a@) })
        }),
{
}

/// Once the cache lifetime has passed, what the durable store holds is observed: changed tokens
/// are served, and a logout is reported.
pub proof fn law_outside_changes_are_observed<E>(
    m: Manager,
    a: Auth,
    at: u64,
    now: u64,
    changed: StoredAuth,
)
    requires
        m.test_auth is None,
        at <= now,
        now - at >= m.ttl,
        manager::fresh(m, changed@, now),
    ensures
        ({
            let n = manager::remember(m, a, at);
            &&& manager::ask::<E>(n, now) == Next::<E>::LockRead
            &&& manager::load::<E>(n, now) == (Next::<E>::Load { then: Goal::Serve })
            &&& manager::after_load::<E>(n, Goal::Serve, Ok(Some(changed)), now).1 == (Next::<
                E,
            >::Done { result: Ok(changed@) })
            &&& manager::after_load::<E>(n, Goal::Serve, Ok(None), now).1 == (Next::<E>::Done {
                result: Err(Failure::NotLoggedIn),
            })
        }),
{
}

/// Tokens that are served without a rejection are valid for longer than the margin, whether they
/// come from memory or from the durable store.
pub proof fn law_served_tokens_are_fresh<E>(
    m: Manager,
    goal: Goal,
    outcome: Result<Option<StoredAuth>, E>,
    now: u64,
    a: Auth,
)
    requires
        goal is Serve || goal == (Goal::Refresh { force: false, rejected: None }),
    ensures
        manager::ask::<E>(m, now) == (Next::<E>::Done { result: Ok(a) }) ==> manager::fresh(
            m,
            a,
            now,
        ),
        manager::load::<E>(m, now) == (Next::<E>::Done { result: Ok(a) }) ==> manager::fresh(
            m,
            a,
            now,
        ),
        manager::reload::<E>(m, goal, now) == (Next::<E>::Done { result: Ok(a) })
            ==> manager::fresh(m, a, now),
        manager::after_load(m, goal, outcome, now).1 == (Next::<E>::Done { result: Ok(a) })
            ==> manager::fresh(m, a, now),
{
}

/// Refreshes collapse: once one request has saved rotated tokens, another that waited for the
/// lock meanwhile reloads them from the durable store and gets them without a request of its own.
pub proof fn law_waiting_requests_share_a_rotation<E>(
    m: Manager,
    next: StoredAuth,
    at: u64,
    now: u64,
)
    requires
        m.test_auth is None,
        manager::fresh(m, next@, now),
    ensures
        ({
            let goal = Goal::Refresh { force: false, rejected: None };
            let done = Next::<E>::Done { result: Ok(next@) };
            let n = manager::after_save::<E>(m, next@, Ok(()), at).0;
            &&& manager::reload::<E>(n, goal, now) == (Next::<E>::Load { then: goal })
            &&& manager::after_load::<E>(n, goal, Ok(Some(next)), now) == (
                manager::remember(n, next@, now),
                done,
            )
        }),
{
}

/// A refresh goes by what the durable store holds and not by what is in memory: tokens that
/// someone outside has written are served, if they are fresh, and no request goes out for the
/// expired ones, however recently those were read.
pub proof fn law_refresh_reloads_from_the_store<E>(m: Manager, new: StoredAuth, now: u64)
    requires
        m.test_auth is None,
        manager::fresh(m, new@, now),
    ensures
        ({
            let goal = Goal::Refresh { force: false, rejected: None };
            &&& manager::reload::<E>(m, goal, now) == (Next::<E>::Load { then: goal })
            &&& manager::after_load::<E>(m, goal, Ok(Some(new)), now) == (
                manager::remember(m, new@, now),
                Next::<E>::Done { result: Ok(new@) },
            )
        }),
{
}

/// The same holds of requests that were sent off because one access token was rejected: the
/// tokens that replaced it are reloaded and served, fresh or not, and no request goes out.
pub proof fn law_rejection_of_replaced_tokens_is_settled<E>(
    m: Manager,
    a: StoredAuth,
    rejected: Seq<char>,
    force: bool,
    now: u64,
)
    requires
        a@.access != rejected,
    ensures
        ({
            let goal = Goal::Refresh { force, rejected: Some(rejected) };
            let done = Next::<E>::Done { result: Ok(a@) };
            &&& m.test_auth is None ==> manager::reload::<E>(m, goal, now) == (Next::<E>::Load {
                then: goal,
            })
            &&& m.test_auth == Some(a@) ==> manager::reload::<E>(m, goal, now) == done
            &&& manager::after_load::<E>(m, goal, Ok(Some(a)), now).1 == done
        }),
{
}

/// A forced refresh of the very tokens that were rejected sends their refresh token to the token
/// endpoint, however long they would be valid.
pub proof fn law_rejected_tokens_are_rotated<E>(m: Manager, a: StoredAuth, now: u64)
    requires
        a@.refresh.len() > 0,
    ensures
        manager::after_load::<E>(
            m,
            Goal::Refresh { force: true, rejected: Some(a@.access) },
            Ok(Some(a)),
            now,
        ).1 == (Next::<E>::Send {
            endpoint: m.endpoint,
            form: manager::refresh_form(m.client_id, a@.refresh),
            current: a@,
        }),
{
}

/// A rejected refresh does not drop tokens that were changed meanwhile: they are served and
/// remembered, and the durable store is left alone.
pub proof fn law_changed_tokens_survive_a_rejection<E>(
    m: Manager,
    current: Auth,
    latest: StoredAuth,
    status: u16,
    now: u64,
)
    requires
        status == 401 || status == 403,
        latest@ != current,
    ensures
        manager::after_response::<E>(current, Ok(status)) == (Next::<E>::LoadLatest { current }),
        manager::after_latest::<E>(m, current, Ok(Some(latest)), now) == (
            manager::remember(m, latest@, now),
            Next::<E>::Done { result: Ok(latest@) },
        ),
{
}

/// A rejected refresh of tokens that are still the stored ones clears the durable store and the
/// memory, so that the next request has to read and finds nothing to serve.
pub proof fn law_rejected_tokens_are_dropped<E>(
    m: Manager,
    current: StoredAuth,
    now: u64,
    later: u64,
)
    requires
        m.test_auth is None,
    ensures
        ({
            let (n, step) = manager::after_latest::<E>(m, current@, Ok(Some(current)), now);
            let (cleared, then) = manager::after_clear::<E>(n, Ok(()));
            &&& step == (Next::<E>::Clear)
            &&& then == (Next::<E>::ReadErrorText)
            &&& manager::ask::<E>(cleared, later) == Next::<E>::LockRead
            &&& manager::load::<E>(cleared, later) == (Next::<E>::Load { then: Goal::Serve })
        }),
{
}

/// An outside failure ends a request with that failure and leaves the memory as it was.
pub proof fn law_outside_failures_change_nothing<E>(
    m: Manager,
    goal: Goal,
    a: Auth,
    error: E,
    now: u64,
)
    ensures
        ({
            let done = Next::<E>::Done { result: Err(Failure::Outside { error }) };
            &&& manager::after_load(m, goal, Err(error), now) == (m, done)
            &&& manager::after_latest(m, a, Err(error), now) == (m, done)
            &&& manager::after_clear(m, Err(error)) == (m, done)
            &&& manager::after_save(m, a, Err(error), now) == (m, done)
            &&& manager::after_tokens(a, Err(TokenFailure::Invalid { error }), now) == done
        }),
{
}

/// Rotated tokens are served at once, and expire as long after the grant as the issuer says, or
/// after an hour. They keep their account where the grant names none.
pub proof fn law_rotation_is_written_through<E>(
    m: Manager,
    current: Auth,
    tokens: TokenResponse,
    account_id: Option<String>,
    now: u64,
    at: u64,
)
    requires
        manager::expiry_fits(tokens, now),
        m.test_auth is None,
        m.ttl > 0,
    ensures
        manager::after_tokens::<E>(current, Ok((tokens, account_id)), now) matches Next::Save {
            auth,
        } && auth.access == tokens.access_token@ && auth.refresh == tokens.refresh_token@
            && auth.expires == now + 1000 * (match tokens.expires_in {
            Some(seconds) => seconds as int,
            None => 3600,
        }) && (account_id is None ==> auth.account_id == current.account_id) && ({
            let (n, step) = manager::after_save::<E>(m, auth, Ok(()), at);
            step == (Next::<E>::Done { result: Ok(auth) }) && manager::held(n, at) == Some(auth)
        }),
{
}

/// How far a request is from its end.
pub open spec fn distance<E>(step: Next<E>) -> nat {
    match step {
        Next::LockRead => 8,
        Next::Load { then: Goal::Serve } => 7,
        Next::Lock { .. } => 6,
        Next::Load { then: Goal::Refresh { .. } } => 5,
        Next::Send { .. } => 4,
        Next::LoadLatest { .. } => 3,
        Next::ReadTokens { .. } => 3,
        Next::Clear => 2,
        Next::Save { .. } => 2,
        Next::ReadErrorText => 1,
        Next::Done { .. } => 0,
    }
}

/// Whatever the outcomes are, each step brings a request closer to its end. So every request
/// ends, takes each lock at most once and sends at most one refresh.
pub proof fn law_requests_come_to_an_end<E>(
    m: Manager,
    force: bool,
    rejected: Option<Seq<char>>,
    a: Auth,
    now: u64,
    loaded: Result<Option<StoredAuth>, E>,
    status: Result<u16, String>,
    written: Result<(), E>,
    tokens: Result<(TokenResponse, Option<String>), TokenFailure<E>>,
)
    ensures
        ({
            let refresh = Goal::Refresh { force, rejected };
            &&& distance(manager::ask::<E>(m, now)) <= 8
            &&& distance(manager::load::<E>(m, now)) < 8
            &&& distance(manager::after_load(m, Goal::Serve, loaded, now).1) < 7
            &&& distance(manager::reload::<E>(m, refresh, now)) < 6
            &&& distance(manager::after_load(m, refresh, loaded, now).1) < 5
            &&& distance(manager::after_response::<E>(a, status)) < 4
            &&& distance(manager::after_latest(m, a, loaded, now).1) < 3
            &&& distance(manager::after_tokens(a, tokens, now)) < 3
            &&& distance(manager::after_clear(m, written).1) < 2
            &&& distance(manager::after_save(m, a, written, now).1) < 2
        }),
{
}

/// What performing a step gives.
pub enum Outcome<E> {
    Read(Result<Option<StoredAuth>, E>),
    ReadLock,
    RefreshLock,
    Response(Result<u16, String>),
    Written(Result<(), E>),
    ErrorText(Option<String>),
    Tokens(Result<(TokenResponse, Option<String>), TokenFailure<E>>),
}

/// The memory and the next step after a step is performed with an outcome that it can have.
pub open spec fn advance<E>(m: Manager, step: Next<E>, outcome: Outcome<E>, now: u64) -> Option<
    (Manager, Next<E>),
> {
    match (step, outcome) {
        (Next::Load { then }, Outcome::Read(read)) => Some(
            manager::after_load(m, then, read, now),
        ),
        (Next::LockRead, Outcome::ReadLock) => Some((m, manager::load::<E>(m, now))),
        (Next::Lock { request }, Outcome::RefreshLock) => Some(
            (m, manager::reload::<E>(m, request, now)),
        ),
        (Next::Send { current, .. }, Outcome::Response(response)) => Some(
            (m, manager::after_response::<E>(current, response)),
        ),
        (Next::LoadLatest { current }, Outcome::Read(read)) => Some(
            manager::after_latest(m, current, read, now),
        ),
        (Next::Clear, Outcome::Written(written)) => Some(manager::after_clear(m, written)),
        (Next::ReadErrorText, Outcome::ErrorText(reason)) => Some(
            (m, manager::after_error_text::<E>(reason)),
        ),
        (Next::ReadTokens { current }, Outcome::Tokens(tokens)) => Some(
            (m, manager::after_tokens(current, tokens, now)),
        ),
        (Next::Save { auth }, Outcome::Written(written)) => Some(
            manager::after_save(m, auth, written, now),
        ),
        _ => None,
    }
}

/// Whether a step is one that only a refresh takes: it comes before the token request, is the
/// request itself, or deals with the response.
pub open spec fn refreshing<E>(step: Next<E>) -> bool {
    match step {
        Next::Load { then } => then is Refresh,
        Next::Send { .. } => true,
        Next::LoadLatest { .. } => true,
        Next::Clear => true,
        Next::ReadErrorText => true,
        Next::ReadTokens { .. } => true,
        _ => false,
    }
}

/// A token request is sent only under the refresh lock: a request that has not taken it gets
/// tokens, a failure, a read of the durable store or a lock as its next step, and saving tokens
/// ends it.
pub proof fn law_requests_are_sent_under_the_lock<E>(
    m: Manager,
    step: Next<E>,
    outcome: Outcome<E>,
    now: u64,
)
    ensures
        !refreshing(manager::ask::<E>(m, now)),
        !refreshing(step) && !(step is Lock) ==> (advance(m, step, outcome, now) matches Some(after)
            ==> !refreshing(after.1)),
{
}

/// Requests that share a manager, by a number that each of them has.
#[verifier::reject_recursive_types(E)]
pub struct Traffic<E> {
    pub memory: Manager,
    /// What each request does next.
    pub steps: Map<nat, Next<E>>,
    /// The request that holds the read lock.
    pub reader: Option<nat>,
    /// The request that holds the refresh lock.
    pub holder: Option<nat>,
}

/// What may happen to requests that share a manager.
pub enum Move<E> {
    /// A request for tokens comes in.
    Ask { id: nat, now: u64 },
    /// A request comes in for tokens other than those of a rejected access token.
    Force { id: nat, rejected: Seq<char> },
    /// The tokens of a login come in.
    Login { id: nat, auth: Auth },
    /// A request performs its step.
    Perform { id: nat, outcome: Outcome<E>, now: u64 },
}

/// A new request, under a number that none has had.
pub open spec fn entered<E>(t: Traffic<E>, id: nat, step: Next<E>) -> Option<Traffic<E>> {
    if t.steps.dom().contains(id) {
        None
    } else {
        Some(Traffic { steps: t.steps.insert(id, step), ..t })
    }
}

/// The traffic after one more move, if it is possible. A lock is taken only while it is free. The
/// read lock is held until its request has read, and the refresh lock until its request is done.
pub open spec fn moved<E>(t: Traffic<E>, action: Move<E>) -> Option<Traffic<E>> {
    match action {
        Move::Ask { id, now } => entered(t, id, manager::ask::<E>(t.memory, now)),
        Move::Force { id, rejected } => entered(
            t,
            id,
            Next::<E>::Lock {
                request: Goal::Refresh { force: true, rejected: Some(rejected) },
            },
        ),
        Move::Login { id, auth } => entered(t, id, Next::<E>::Save { auth }),
        Move::Perform { id, outcome, now } => if !t.steps.dom().contains(id) || (
        t.steps[id] is Lock && t.holder is Some) || (t.steps[id] is LockRead && t.reader is Some) {
            None
        } else {
            match advance(t.memory, t.steps[id], outcome, now) {
                Some((memory, step)) => {
                    let held = if t.steps[id] is Lock {
                        Some(id)
                    } else {
                        t.holder
                    };
                    let reading = if t.steps[id] is LockRead {
                        Some(id)
                    } else {
                        t.reader
                    };
                    Some(
                        Traffic {
                            memory,
                            steps: t.steps.insert(id, step),
                            reader: if !(step is Load) && reading == Some(id) {
                                None
                            } else {
                                reading
                            },
                            holder: if step is Done && held == Some(id) {
                                None
                            } else {
                                held
                            },
                        },
                    )
                },
                None => None,
            }
        },
    }
}

/// The traffic that the moves lead to on a manager `m`, if they are possible.
pub open spec fn traffic<E>(m: Manager, moves: Seq<Move<E>>) -> Option<Traffic<E>>
    decreases moves.len(),
{
    if moves.len() == 0 {
        Some(Traffic { memory: m, steps: Map::empty(), reader: None, holder: None })
    } else {
        match traffic(m, moves.drop_last()) {
            Some(t) => moved(t, moves.last()),
            None => None,
        }
    }
}

proof fn lemma_refreshing_holds_the_lock<E>(m: Manager, moves: Seq<Move<E>>)
    ensures
        traffic(m, moves) matches Some(t) ==> forall|id: nat| #[trigger]
            t.steps.dom().contains(id) && refreshing(t.steps[id]) ==> t.holder == Some(id),
    decreases moves.len(),
{
    if moves.len() > 0 {
        lemma_refreshing_holds_the_lock(m, moves.drop_last());
    }
}

/// Refreshes run one at a time: however many requests share a manager, in whatever order they
/// perform their steps and whatever the outcomes are, one that is about to send a token request,
/// waits for the response or deals with it holds the lock, so that no two of them are at it
/// together.
pub proof fn law_refreshes_run_one_at_a_time<E>(
    m: Manager,
    moves: Seq<Move<E>>,
    a: nat,
    b: nat,
)
    ensures
        traffic(m, moves) matches Some(t) ==> {
            &&& t.steps.dom().contains(a) && refreshing(t.steps[a]) ==> t.holder == Some(a)
            &&& t.steps.dom().contains(a) && refreshing(t.steps[a]) && t.steps.dom().contains(b)
                && refreshing(t.steps[b]) ==> a == b
        },
{
    lemma_refreshing_holds_the_lock(m, moves);
}

/// Whoever waited for the lock gets the tokens of the request that held it: once a request has
/// ended with some tokens, from memory, from the durable store or by a rotation, a refresh that
/// takes the lock reloads, and where nobody else has written meanwhile and the tokens are fresh,
/// it gets the same ones and sends nothing.
pub proof fn law_waiting_requests_get_the_same_tokens<E>(
    m: Manager,
    step: Next<E>,
    outcome: Outcome<E>,
    at: u64,
    tokens: StoredAuth,
    now: u64,
)
    requires
        m.test_auth is None,
        advance(m, step, outcome, at) matches Some(after) && after.1 == (Next::<E>::Done {
            result: Ok(tokens@),
        }),
        manager::fresh(m, tokens@, now),
    ensures
        ({
            let n = advance(m, step, outcome, at).unwrap().0;
            let goal = Goal::Refresh { force: false, rejected: None };
            &&& manager::reload::<E>(n, goal, now) == (Next::<E>::Load { then: goal })
            &&& manager::after_load::<E>(n, goal, Ok(Some(tokens)), now).1 == (Next::<E>::Done {
                result: Ok(tokens@),
            })
        }),
{
}

/// Whether a move belongs to a burst of requests that load tokens while the durable store holds
/// `a`: it comes within the cache lifetime from `from` on, every read gives `a`, and no refresh
/// begins.
pub open spec fn in_burst<E>(m: Manager, action: Move<E>, a: Auth, from: u64) -> bool {
    match action {
        Move::Ask { now, .. } => from <= now < from + m.ttl,
        Move::Perform { outcome, now, .. } => {
            &&& from <= now < from + m.ttl
            &&& outcome is ReadLock || (outcome matches Outcome::Read(Ok(Some(read))) && read@ == a)
        },
        _ => false,
    }
}

/// How many reads of the durable store the moves perform.
pub open spec fn reads<E>(moves: Seq<Move<E>>) -> nat
    decreases moves.len(),
{
    if moves.len() == 0 {
        0
    } else {
        let more: nat = match moves.last() {
            Move::Perform { outcome, .. } => if outcome is Read {
                1
            } else {
                0
            },
            _ => 0,
        };
        reads(moves.drop_last()) + more
    }
}

/// Whether a request in a burst waits for the read lock, reads, or has loaded the tokens `a` and
/// goes on with them: it serves them if they are fresh.
pub open spec fn loading_or_loaded<E>(m: Manager, step: Next<E>, a: Auth, from: u64) -> bool {
    ||| step is LockRead
    ||| step == (Next::<E>::Load { then: Goal::Serve })
    ||| exists|now: u64|
        from <= now < from + m.ttl && step == #[trigger] manager::proceed::<E>(
            m,
            Goal::Serve,
            a,
            now,
        )
}

/// The memory is as it was before the first read, or holds the tokens that the only read gave.
/// Only the request with the read lock reads, and none does once there was a read.
spec fn burst_state<E>(m: Manager, t: Traffic<E>, reads: nat, a: Auth, from: u64) -> bool {
    &&& t.memory == (Manager { cache: t.memory.cache, ..m })
    &&& match t.memory.cache {
        Some(c) => reads == 1 && c.0 == a && from <= c.1 < from + m.ttl,
        None => reads == 0,
    }
    &&& forall|id: nat| #[trigger]
        t.steps.dom().contains(id) ==> loading_or_loaded(m, t.steps[id], a, from) && (t.steps[id] is Load
            ==> t.reader == Some(id) && reads == 0)
}

proof fn lemma_burst<E>(m: Manager, moves: Seq<Move<E>>, a: Auth, from: u64)
    requires
        m.test_auth is None,
        m.cache is None,
        forall|i: int| 0 <= i < moves.len() ==> in_burst(m, #[trigger] moves[i], a, from),
    ensures
        traffic(m, moves) matches Some(t) ==> burst_state(m, t, reads(moves), a, from),
    decreases moves.len(),
{
    if moves.len() > 0 {
        let init = moves.drop_last();
        assert forall|i: int| 0 <= i < init.len() implies in_burst(
            m,
            #[trigger] init[i],
            a,
            from,
        ) by {
            assert(init[i] == moves[i]);
        }
        lemma_burst(m, init, a, from);
        assert(in_burst(m, moves[moves.len() - 1], a, from));
        if let (Some(t), Some(after)) = (traffic(m, init), traffic(m, moves)) {
            let (id, now) = match moves.last() {
                Move::Ask { id, now } => (id, now),
                Move::Perform { id, now, .. } => (id, now),
                _ => (0, 0),
            };
            let step = manager::proceed::<E>(m, Goal::Serve, a, now);
            assert(loading_or_loaded(m, step, a, from));
            assert(t.steps.dom().contains(id) ==> loading_or_loaded(m, t.steps[id], a, from));
            assert(loading_or_loaded(m, after.steps[id], a, from));
        }
    }
}

/// A burst of requests collapses onto a single read of the durable store: however many requests
/// come within the cache lifetime on an empty cache, at the same time or one after the other, the
/// store is read at most once in all, and each request that goes on has loaded the tokens that the
/// store holds.
pub proof fn law_a_burst_shares_one_read<E>(
    m: Manager,
    moves: Seq<Move<E>>,
    a: Auth,
    from: u64,
)
    requires
        m.test_auth is None,
        m.cache is None,
        forall|i: int| 0 <= i < moves.len() ==> in_burst(m, #[trigger] moves[i], a, from),
    ensures
        traffic(m, moves) matches Some(t) ==> reads(moves) <= 1 && forall|id: nat| #[trigger]
            t.steps.dom().contains(id) ==> loading_or_loaded(m, t.steps[id], a, from),
{
    lemma_burst(m, moves, a, from);
}

} // verus!
