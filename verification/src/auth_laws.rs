//! What the manager does with tokens, in terms of their fields, the clock and the outcomes.
use vstd::prelude::*;

use crate::manager;
use crate::manager::{
    Auth, AuthError, AuthStep, Failure, Goal, Manager, Next, StoredAuth, Then, TokenFailure,
    TokenResponse,
};
use crate::manager_laws;
use crate::manager_laws::{Move, Outcome};
use crate::text;

verus! {

/// The tokens that are at hand: those that are fixed, or those in memory until the cache lifetime
/// has passed since they were read or written.
pub open spec fn at_hand(m: Manager, now: u64) -> Option<Auth> {
    match m.test_auth {
        Some(a) => Some(a),
        None => match m.cache {
            Some((a, at)) => if m.ttl > 0 && now < at + m.ttl {
                Some(a)
            } else {
                None
            },
            None => None,
        },
    }
}

/// What a request for tokens gets of tokens: it is served tokens that stay valid for longer than
/// the margin, and no others. Tokens that expire sooner, or have expired, lead to the refresh lock.
pub open spec fn served<E>(m: Manager, a: Auth, now: u64, step: Next<E>) -> bool {
    &&& a.expires > now + m.margin ==> step == (Next::<E>::Done { result: Ok(a) })
    &&& a.expires <= now + m.margin ==> step == (Next::<E>::Lock {
        request: Goal::Refresh { force: false, rejected: None },
    })
}

/// What a refresh does with tokens: it gives back tokens that stay valid for longer than the
/// margin, unless it is forced, and tokens with another access token than the rejected one. It
/// fails without a refresh token, and sends it to the token endpoint otherwise.
pub open spec fn refreshed<E>(
    m: Manager,
    force: bool,
    rejected: Option<Seq<char>>,
    a: Auth,
    now: u64,
    step: Next<E>,
) -> bool {
    let valid = !force && a.expires > now + m.margin;
    let replaced = rejected matches Some(access) && access != a.access;
    if valid || replaced {
        step == (Next::<E>::Done { result: Ok(a) })
    } else if a.refresh.len() == 0 {
        step == (Next::<E>::Done { result: Err(Failure::NoRefreshToken) })
    } else {
        &&& step matches Next::Send { endpoint, form, current }
        &&& endpoint == m.endpoint
        &&& current == a
        &&& form.len() == 3
        &&& form[0] == ("client_id"@, m.client_id)
        &&& form[1] == ("grant_type"@, "refresh_token"@)
        &&& form[2] == ("refresh_token"@, a.refresh)
    }
}

/// A request for tokens uses those at hand, or takes the read lock. Under that lock it uses what is
/// at hand by then, or reads the durable store.
pub proof fn law_requests_use_the_tokens_at_hand<E>(m: Manager, now: u64)
    ensures
        match at_hand(m, now) {
            Some(a) => served(m, a, now, manager::ask::<E>(m, now)) && served(
                m,
                a,
                now,
                manager::load::<E>(m, now),
            ),
            None => manager::ask::<E>(m, now) == Next::<E>::LockRead && manager::load::<E>(m, now)
                == (Next::<E>::Load { then: Goal::Serve }),
        },
{
}

/// A refresh reads the durable store under its lock, whatever is in memory, unless the tokens are
/// fixed.
pub proof fn law_refreshes_read_under_the_lock<E>(
    m: Manager,
    force: bool,
    rejected: Option<Seq<char>>,
    now: u64,
)
    ensures
        ({
            let goal = Goal::Refresh { force, rejected };
            let step = manager::reload::<E>(m, goal, now);
            match m.test_auth {
                Some(a) => refreshed(m, force, rejected, a, now, step),
                None => step == (Next::<E>::Load { then: goal }),
            }
        }),
{
}

/// A read of the durable store is remembered, with the time of the read, and used: to serve it or
/// to refresh it. A read that finds no tokens empties the memory and fails as the request asks, and
/// a read that fails changes nothing and passes its error on.
pub proof fn law_reads_are_used_and_remembered<E>(
    m: Manager,
    goal: Goal,
    outcome: Result<Option<StoredAuth>, E>,
    now: u64,
)
    ensures
        ({
            let (n, step) = manager::after_load(m, goal, outcome, now);
            &&& n.test_auth == m.test_auth && n.ttl == m.ttl && n.margin == m.margin && n.client_id
                == m.client_id && n.endpoint == m.endpoint
            &&& match outcome {
                Ok(Some(a)) => n.cache == Some((a@, now)) && match goal {
                    Goal::Serve => served(m, a@, now, step),
                    Goal::Refresh { force, rejected } => refreshed(
                        m,
                        force,
                        rejected,
                        a@,
                        now,
                        step,
                    ),
                },
                Ok(None) => n.cache is None && step == (Next::<E>::Done {
                    result: Err(
                        if goal is Serve {
                            Failure::NotLoggedIn
                        } else {
                            Failure::NotAuthenticated
                        },
                    ),
                }),
                Err(error) => n.cache == m.cache && step == (Next::<E>::Done {
                    result: Err(Failure::Outside { error }),
                }),
            }
        }),
{
}

/// Tokens that are served outlive the clock by more than the margin, wherever they come from, and
/// tokens that do not are never served without a refresh.
pub proof fn law_served_tokens_outlive_the_clock<E>(
    m: Manager,
    goal: Goal,
    outcome: Result<Option<StoredAuth>, E>,
    now: u64,
    a: Auth,
)
    requires
        goal is Serve || goal == (Goal::Refresh { force: false, rejected: None }),
        ({
            let done = Next::<E>::Done { result: Ok(a) };
            ||| manager::ask::<E>(m, now) == done
            ||| manager::load::<E>(m, now) == done
            ||| manager::reload::<E>(m, goal, now) == done
            ||| manager::after_load(m, goal, outcome, now).1 == done
        }),
    ensures
        a.expires > now + m.margin,
{
}

/// Tokens that are about to expire or have expired are refreshed: a request goes on to the refresh
/// lock, and under it their refresh token is sent, if they have one.
pub proof fn law_expired_tokens_are_refreshed<E>(m: Manager, a: StoredAuth, now: u64)
    requires
        a@.expires <= now + m.margin,
    ensures
        ({
            let goal = Goal::Refresh { force: false, rejected: None };
            &&& manager::after_load::<E>(m, Goal::Serve, Ok(Some(a)), now).1 == (Next::<E>::Lock {
                request: goal,
            })
            &&& at_hand(m, now) == Some(a@) ==> manager::ask::<E>(m, now) == (Next::<E>::Lock {
                request: goal,
            })
            &&& a@.refresh.len() > 0 ==> manager::after_load::<E>(
                m,
                goal,
                Ok(Some(a)),
                now,
            ).1 is Send
            &&& a@.refresh.len() == 0 ==> manager::after_load::<E>(m, goal, Ok(Some(a)), now).1 == (
            Next::<E>::Done { result: Err(Failure::NoRefreshToken) })
        }),
{
}

/// Only a rejection puts the login into question: a response with the status 401 or 403 leads to a
/// fresh look at the durable store, one with a success status to the tokens in it, and any other
/// status, or no response at all, ends the request with a failure that names it. None of these
/// others drops tokens.
pub proof fn law_only_rejections_question_the_login<E>(
    current: Auth,
    outcome: Result<u16, String>,
)
    ensures
        ({
            let step = manager::after_response::<E>(current, outcome);
            match outcome {
                Ok(status) => {
                    let rejected = status == 401 || status == 403;
                    let success = 200 <= status && status < 300;
                    &&& rejected ==> step == (Next::<E>::LoadLatest { current })
                    &&& success ==> step == (Next::<E>::ReadTokens { current })
                    &&& !rejected && !success ==> step == (Next::<E>::Done {
                        result: Err(Failure::RefreshFailed { status }),
                    })
                },
                Err(reason) => step == (Next::<E>::Done {
                    result: Err(Failure::Network { reason: reason@ }),
                }),
            }
        }),
{
}

/// After a rejection, tokens that were changed in the durable store meanwhile are remembered and
/// served, whatever changed of them. Only tokens that are the rejected ones in every field, or that
/// are gone, are dropped.
pub proof fn law_only_the_rejected_tokens_are_dropped<E>(
    m: Manager,
    current: Auth,
    outcome: Result<Option<StoredAuth>, E>,
    now: u64,
)
    ensures
        ({
            let (n, step) = manager::after_latest(m, current, outcome, now);
            &&& n.test_auth == m.test_auth && n.ttl == m.ttl && n.margin == m.margin && n.client_id
                == m.client_id && n.endpoint == m.endpoint
            &&& match outcome {
                Ok(Some(a)) => {
                    let same = a.access@ == current.access && a.refresh@ == current.refresh
                        && a.expires == current.expires && text::optional_text(a.account_id)
                        == current.account_id;
                    &&& same ==> n.cache == m.cache && step == Next::<E>::Clear
                    &&& !same ==> n.cache == Some((a@, now)) && step == (Next::<E>::Done {
                        result: Ok(a@),
                    })
                },
                Ok(None) => n.cache == m.cache && step == Next::<E>::Clear,
                Err(error) => n.cache == m.cache && step == (Next::<E>::Done {
                    result: Err(Failure::Outside { error }),
                }),
            }
        }),
{
    if let Ok(Some(a)) = outcome {
        let same = a.access@ == current.access && a.refresh@ == current.refresh && a.expires
            == current.expires && text::optional_text(a.account_id) == current.account_id;
        assert(same ==> a@ == current);
    }
}

/// Once the durable store is cleared, the memory is empty as well, and the request ends as
/// unauthorized, with the text of the response if it can be read. If it cannot be cleared, nothing
/// changes.
pub proof fn law_a_rejected_login_ends<E>(
    m: Manager,
    outcome: Result<(), E>,
    reason: Option<String>,
)
    ensures
        ({
            let (n, step) = manager::after_clear(m, outcome);
            &&& n.test_auth == m.test_auth && n.ttl == m.ttl && n.margin == m.margin && n.client_id
                == m.client_id && n.endpoint == m.endpoint
            &&& match outcome {
                Ok(_) => n.cache is None && step == Next::<E>::ReadErrorText,
                Err(error) => n.cache == m.cache && step == (Next::<E>::Done {
                    result: Err(Failure::Outside { error }),
                }),
            }
        }),
        manager::after_error_text::<E>(reason) == (Next::<E>::Done {
            result: Err(
                Failure::Unauthorized {
                    reason: match reason {
                        Some(reason) => reason@,
                        None => "Token refresh unauthorized"@,
                    },
                },
            ),
        }),
{
}

/// Granted tokens are saved as they were granted. They expire as many seconds after the grant as
/// the issuer says, or after an hour, and belong to the account that they name, or else to that of
/// the tokens before. What cannot be read, or is not valid, is not saved.
pub proof fn law_granted_tokens_are_saved<E>(
    current: Auth,
    outcome: Result<(TokenResponse, Option<String>), TokenFailure<E>>,
    now: u64,
)
    requires
        outcome matches Ok(granted) ==> manager::expiry_fits(granted.0, now),
    ensures
        ({
            let step = manager::after_tokens(current, outcome, now);
            match outcome {
                Ok((tokens, account_id)) => {
                    &&& step matches Next::Save { auth }
                    &&& auth.access == tokens.access_token@
                    &&& auth.refresh == tokens.refresh_token@
                    &&& auth.expires == now + 1000 * (match tokens.expires_in {
                        Some(seconds) => seconds as int,
                        None => 3600,
                    })
                    &&& auth.account_id == (match account_id {
                        Some(id) => Some(id@),
                        None => current.account_id,
                    })
                },
                Err(TokenFailure::Unreadable { reason }) => step == (Next::<E>::Done {
                    result: Err(Failure::BadTokenResponse { reason: reason@ }),
                }),
                Err(TokenFailure::Invalid { error }) => step == (Next::<E>::Done {
                    result: Err(Failure::Outside { error }),
                }),
            }
        }),
{
}

/// The tokens of a grant, of a login as well as of a refresh, are those of the response, and expire
/// when it says, or after an hour.
pub proof fn law_grants_keep_the_tokens(
    tokens: TokenResponse,
    account_id: Option<Seq<char>>,
    now: u64,
)
    ensures
        manager::expiry_fits(tokens, now) <==> now + 1000 * (match tokens.expires_in {
            Some(seconds) => seconds as int,
            None => 3600,
        }) <= u64::MAX,
        manager::expiry_fits(tokens, now) ==> {
            let a = manager::granted(tokens, account_id, now);
            &&& a.access == tokens.access_token@
            &&& a.refresh == tokens.refresh_token@
            &&& a.account_id == account_id
            &&& a.expires == now + 1000 * (match tokens.expires_in {
                Some(seconds) => seconds as int,
                None => 3600,
            })
        },
{
}

/// Saved tokens are remembered, with the time, and served. If they cannot be saved, nothing
/// changes.
pub proof fn law_saved_tokens_are_served<E>(
    m: Manager,
    auth: Auth,
    outcome: Result<(), E>,
    now: u64,
)
    ensures
        ({
            let (n, step) = manager::after_save(m, auth, outcome, now);
            &&& n.test_auth == m.test_auth && n.ttl == m.ttl && n.margin == m.margin && n.client_id
                == m.client_id && n.endpoint == m.endpoint
            &&& match outcome {
                Ok(_) => n.cache == Some((auth, now)) && step == (Next::<E>::Done {
                    result: Ok(auth),
                }),
                Err(error) => n.cache == m.cache && step == (Next::<E>::Done {
                    result: Err(Failure::Outside { error }),
                }),
            }
        }),
{
}

/// The memory is read, written and emptied as such, apart from everything else in the manager. What
/// is in it is trusted until the cache lifetime has passed since it was put there, and not at all
/// without one.
pub proof fn law_memory_holds_what_it_was_given(m: Manager, a: Auth, at: u64, now: u64)
    ensures
        manager::remember(m, a, at) == (Manager { cache: Some((a, at)), ..m }),
        manager::forget(m) == (Manager { cache: None, ..m }),
        m.cache is None ==> manager::cached(m, now) is None,
        m.cache == Some((a, at)) ==> manager::cached(m, now) == (if m.ttl > 0 && now < at + m.ttl {
            Some(a)
        } else {
            None
        }),
{
}

/// A new manager remembers nothing and has what it was given. Reads are trusted for five seconds
/// unless it is told otherwise.
pub proof fn law_new_managers_are_empty(
    client_id: Seq<char>,
    endpoint: Seq<char>,
    margin: u64,
    ttl: u64,
)
    ensures
        ({
            let m = manager::new_manager(client_id, endpoint, margin, ttl);
            &&& m.test_auth is None
            &&& m.cache is None
            &&& m.client_id == client_id
            &&& m.endpoint == endpoint
            &&& m.margin == margin
            &&& m.ttl == ttl
        }),
        manager::AUTH_CACHE_TTL_MS == 5 * 1000,
        manager::DEFAULT_EXPIRES_IN == 60 * 60,
{
}

/// The value of decimal digits.
pub open spec fn decimal_value(digits: Seq<char>) -> int
    decreases digits.len(),
{
    if digits.len() == 0 {
        0
    } else {
        10 * decimal_value(digits.drop_last()) + (digits.last() as int - 48)
    }
}

proof fn lemma_digit(d: nat)
    requires
        d < 10,
    ensures
        manager::digit_text(d).len() == 1,
        manager::digit_text(d)[0] as int == 48 + d,
{
    reveal_strlit("0");
    reveal_strlit("1");
    reveal_strlit("2");
    reveal_strlit("3");
    reveal_strlit("4");
    reveal_strlit("5");
    reveal_strlit("6");
    reveal_strlit("7");
    reveal_strlit("8");
    reveal_strlit("9");
}

/// A number is written in decimal digits that have its value, with no zero in front.
pub proof fn law_numbers_are_written_in_decimal(n: nat)
    ensures
        ({
            let t = manager::decimal_text(n);
            &&& t.len() > 0
            &&& forall|i: int| 0 <= i < t.len() ==> 48 <= (#[trigger] t[i]) as int <= 57
            &&& decimal_value(t) == n
            &&& t.len() > 1 ==> t[0] as int != 48
        }),
    decreases n,
{
    let t = manager::decimal_text(n);
    if n < 10 {
        lemma_digit(n);
        assert(t.drop_last() == Seq::<char>::empty());
        assert(decimal_value(t.drop_last()) == 0);
    } else {
        law_numbers_are_written_in_decimal(n / 10);
        lemma_digit(n % 10);
        let init = manager::decimal_text(n / 10);
        let last = manager::digit_text(n % 10);
        assert(t.drop_last() == init);
        assert(t.last() == last[0]);
        assert(t[0] == init[0]);
        assert(init.len() == 1 ==> decimal_value(init.drop_last()) == 0) by {
            assert(init.len() == 1 ==> init.drop_last() == Seq::<char>::empty());
        }
        assert forall|i: int| 0 <= i < t.len() implies 48 <= (#[trigger] t[i]) as int <= 57 by {
            if i < init.len() {
                assert(t[i] == init[i]);
            }
        }
    }
}

/// Every failure but an outside one says what happened, and names the command that logs in, the
/// reason or the status.
pub proof fn law_failures_are_described<E>(f: Failure<E>, program: Seq<char>)
    ensures
        match f {
            Failure::NotLoggedIn => manager::failure_text(f, program) == Some(
                "Not authenticated. Run: "@ + program + " codex auth login"@,
            ),
            Failure::NotAuthenticated => manager::failure_text(f, program) == Some(
                "Not authenticated"@,
            ),
            Failure::NoRefreshToken => manager::failure_text(f, program) == Some(
                "No refresh token stored; re-authenticate"@,
            ),
            Failure::Network { reason } => manager::failure_text(f, program) == Some(
                "refresh network error: "@ + reason,
            ),
            Failure::Unauthorized { reason } => manager::failure_text(f, program) == Some(reason),
            Failure::RefreshFailed { status } => {
                &&& manager::failure_text(f, program) matches Some(t)
                &&& t.len() > 22
                &&& t.take(22) == "Token refresh failed: "@
                &&& decimal_value(t.skip(22)) == status
            },
            Failure::BadTokenResponse { reason } => manager::failure_text(f, program) == Some(
                "failed to parse token response: "@ + reason,
            ),
            Failure::Outside { .. } => manager::failure_text(f, program) is None,
        },
{
    if let Failure::RefreshFailed { status } = f {
        reveal_strlit("Token refresh failed: ");
        let number = manager::decimal_text(status as nat);
        law_numbers_are_written_in_decimal(status as nat);
        let t = "Token refresh failed: "@ + number;
        assert("Token refresh failed: "@.len() == 22);
        assert(t.take(22) =~= "Token refresh failed: "@);
        assert(t.skip(22) =~= number);
    }
}

/// The content of tokens shows each of their fields, and two tokens have the same content exactly
/// if they agree in each of them.
pub proof fn law_tokens_show_their_fields(a: StoredAuth, b: StoredAuth)
    ensures
        a@.access == a.access@,
        a@.refresh == a.refresh@,
        a@.expires == a.expires,
        a@.account_id == text::optional_text(a.account_id),
        a@ == b@ <==> a.access@ == b.access@ && a.refresh@ == b.refresh@ && a.expires == b.expires
            && text::optional_text(a.account_id) == text::optional_text(b.account_id),
        manager::optional_auth(Some(a)) == Some(a@),
        manager::optional_auth(None) is None,
{
}

/// The content of a step shows what is to be done, with each of its fields.
pub proof fn law_steps_show_their_fields<E>(step: AuthStep<E>)
    ensures
        match step {
            AuthStep::LockRead => step@ == Next::<E>::LockRead,
            AuthStep::Load { then } => step@ == (Next::<E>::Load { then: then@ }),
            AuthStep::Lock { request } => step@ == (Next::<E>::Lock { request: request@ }),
            AuthStep::Send { post, current } => {
                &&& step@ matches Next::Send { endpoint, form, current: c }
                &&& endpoint == post.endpoint@
                &&& c == current@
                &&& form.len() == post.form@.len()
                &&& forall|i: int|
                    0 <= i < form.len() ==> #[trigger] form[i] == (
                        post.form@[i].0@,
                        post.form@[i].1@,
                    )
            },
            AuthStep::LoadLatest { current } => step@ == (Next::<E>::LoadLatest {
                current: current@,
            }),
            AuthStep::Clear => step@ == Next::<E>::Clear,
            AuthStep::ReadErrorText => step@ == Next::<E>::ReadErrorText,
            AuthStep::ReadTokens { current } => step@ == (Next::<E>::ReadTokens {
                current: current@,
            }),
            AuthStep::Save { auth } => step@ == (Next::<E>::Save { auth: auth@ }),
            AuthStep::Done { result: Ok(a) } => step@ == (Next::<E>::Done { result: Ok(a@) }),
            AuthStep::Done { result: Err(e) } => step@ == (Next::<E>::Done { result: Err(e@) }),
        },
{
}

/// The content of what follows a read, and of an error, shows each of their fields.
pub proof fn law_goals_and_errors_show_their_fields<E>(then: Then, e: AuthError<E>)
    ensures
        match then {
            Then::Serve => then@ == Goal::Serve,
            Then::Refresh { request } => then@ == request@ && request@ == (Goal::Refresh {
                force: request.force,
                rejected: text::optional_text(request.rejected_access),
            }),
        },
        match e {
            AuthError::NotLoggedIn => e@ == Failure::<E>::NotLoggedIn,
            AuthError::NotAuthenticated => e@ == Failure::<E>::NotAuthenticated,
            AuthError::NoRefreshToken => e@ == Failure::<E>::NoRefreshToken,
            AuthError::Network { reason } => e@ == (Failure::<E>::Network { reason: reason@ }),
            AuthError::Unauthorized { reason } => e@ == (Failure::<E>::Unauthorized {
                reason: reason@,
            }),
            AuthError::RefreshFailed { status } => e@ == (Failure::<E>::RefreshFailed { status }),
            AuthError::BadTokenResponse { reason } => e@ == (Failure::<E>::BadTokenResponse {
                reason: reason@,
            }),
            AuthError::Outside { error } => e@ == (Failure::<E>::Outside { error }),
        },
{
}

/// Whether a step belongs to a rejected login.
pub open spec fn after_rejection<E>(step: Next<E>) -> bool {
    step is LoadLatest || step is Clear || step is ReadErrorText
}

/// Whether a move is a response that rejects the tokens of the request `id`.
pub open spec fn is_rejection<E>(action: Move<E>, id: nat) -> bool {
    action matches Move::Perform { id: i, outcome: Outcome::Response(Ok(status)), .. } && i == id
        && (status == 401 || status == 403)
}

/// Tokens are dropped only on a rejection: a request among any number of others clears the durable
/// store only if the token endpoint has answered it with 401 or 403.
pub proof fn law_logins_end_only_on_a_rejection<E>(
    m: Manager,
    moves: Seq<Move<E>>,
    id: nat,
)
    requires
        manager_laws::traffic(m, moves) matches Some(t) && t.steps.dom().contains(id)
            && after_rejection(t.steps[id]),
    ensures
        exists|i: int| 0 <= i < moves.len() && is_rejection(#[trigger] moves[i], id),
    decreases moves.len(),
{
    if moves.len() > 0 {
        let init = moves.drop_last();
        let t = manager_laws::traffic(m, init).unwrap();
        if t.steps.dom().contains(id) && after_rejection(t.steps[id]) {
            law_logins_end_only_on_a_rejection(m, init, id);
            let i = choose|i: int| 0 <= i < init.len() && is_rejection(#[trigger] init[i], id);
            assert(is_rejection(moves[i], id));
        } else {
            assert(is_rejection(moves[moves.len() - 1], id));
        }
    }
}

/// The clock has to leave room for the margin wherever an expiry is compared with it, which a
/// forced refresh does not do, and nothing else is asked of it.
pub proof fn law_the_clock_leaves_room_for_the_margin(m: Manager, goal: Goal, now: u64)
    ensures
        now + m.margin <= u64::MAX ==> manager::clock_fits(m, goal, now),
        now + m.margin > u64::MAX ==> (manager::clock_fits(m, goal, now) <==> (
        goal matches Goal::Refresh { force, .. } && force)),
        manager::held(m, now) == at_hand(m, now),
{
}

} // verus!
