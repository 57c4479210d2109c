use provider_proxy::manager::{
    AuthError, AuthStep, CodexAuthManager, RefreshPost, StoredAuth, Then, TokenFailure,
    TokenResponse, AUTH_CACHE_TTL_MS, DEFAULT_EXPIRES_IN,
};

const NOW: u64 = 1_700_000_000_000;
const MARGIN: u64 = 300_000;
const CLIENT: &str = "client_1";
const ISSUER: &str = "https://issuer.test";

type Granted = Result<(TokenResponse, Option<String>), TokenFailure<String>>;

/// What the token endpoint answers.
enum Reply {
    Unreachable(String),
    Status(u16),
    Rejected(u16, Option<String>),
    Tokens(Granted),
}

/// Everything outside of the manager: the durable store, the token endpoint and the clock.
struct World {
    stored: Option<StoredAuth>,
    reads: usize,
    fail_reads: bool,
    fail_writes: bool,
    posts: Vec<RefreshPost>,
    replies: Vec<Reply>,
    /// Written to the durable store by someone else while a request is on its way.
    written_meanwhile: Option<StoredAuth>,
    now: u64,
}

impl World {
    fn new(stored: Option<StoredAuth>) -> World {
        World {
            stored,
            reads: 0,
            fail_reads: false,
            fail_writes: false,
            posts: Vec::new(),
            replies: Vec::new(),
            written_meanwhile: None,
            now: NOW,
        }
    }

    fn read(&mut self) -> Result<Option<StoredAuth>, String> {
        self.reads += 1;
        if self.fail_reads {
            Err("keychain is locked".to_string())
        } else {
            Ok(self.stored.clone())
        }
    }

    fn write(&mut self, auth: Option<StoredAuth>) -> Result<(), String> {
        if self.fail_writes {
            Err("keychain is full".to_string())
        } else {
            self.stored = auth;
            Ok(())
        }
    }

    /// Performs steps up to the refresh lock or the end, with the read lock free.
    fn run(&mut self, m: &mut CodexAuthManager, first: AuthStep<String>) -> AuthStep<String> {
        let mut step = first;
        let mut error_text: Option<String> = None;
        let mut tokens: Option<Granted> = None;
        loop {
            step = match step {
                AuthStep::LockRead => m.load_auth(self.now),
                AuthStep::Load { then } => {
                    let outcome = self.read();
                    m.loaded(then, outcome, self.now)
                }
                AuthStep::Send { post, current } => {
                    self.posts.push(post);
                    if let Some(auth) = self.written_meanwhile.take() {
                        self.stored = Some(auth);
                    }
                    let outcome = match self.replies.remove(0) {
                        Reply::Unreachable(reason) => Err(reason),
                        Reply::Status(status) => Ok(status),
                        Reply::Rejected(status, text) => {
                            error_text = text;
                            Ok(status)
                        }
                        Reply::Tokens(granted) => {
                            tokens = Some(granted);
                            Ok(200)
                        }
                    };
                    m.responded(current, outcome)
                }
                AuthStep::LoadLatest { current } => {
                    let outcome = self.read();
                    m.latest_loaded(current, outcome, self.now)
                }
                AuthStep::Clear => {
                    let outcome = self.write(None);
                    m.cleared(outcome)
                }
                AuthStep::ReadErrorText => m.error_text_read(error_text.take()),
                AuthStep::ReadTokens { current } => {
                    m.tokens_read(current, tokens.take().unwrap(), self.now)
                }
                AuthStep::Save { auth } => {
                    let outcome = self.write(Some(auth.clone()));
                    m.saved(auth, outcome, self.now)
                }
                AuthStep::Lock { request } => return AuthStep::Lock { request },
                AuthStep::Done { result } => return AuthStep::Done { result },
            };
        }
    }

    /// Performs steps to the end, with the lock free.
    fn finish(
        &mut self,
        m: &mut CodexAuthManager,
        first: AuthStep<String>,
    ) -> Result<StoredAuth, AuthError<String>> {
        let mut step = first;
        loop {
            match self.run(m, step) {
                AuthStep::Lock { request } => step = m.locked(request, self.now),
                AuthStep::Done { result } => return result,
                other => panic!("unexpected step {other:?}"),
            }
        }
    }

    fn get_auth(&mut self, m: &mut CodexAuthManager) -> Result<StoredAuth, AuthError<String>> {
        let first = m.get_auth(self.now);
        self.finish(m, first)
    }

    fn force_refresh(
        &mut self,
        m: &mut CodexAuthManager,
        rejected: &str,
    ) -> Result<StoredAuth, AuthError<String>> {
        let first = m.force_refresh(rejected);
        self.finish(m, first)
    }
}

fn stored(access: &str, refresh: &str, expires: u64, account: &str) -> StoredAuth {
    StoredAuth {
        access: access.to_string(),
        refresh: refresh.to_string(),
        expires,
        account_id: Some(account.to_string()),
    }
}

fn response(access: &str, refresh: &str, expires_in: Option<u64>) -> TokenResponse {
    TokenResponse {
        access_token: access.to_string(),
        refresh_token: refresh.to_string(),
        expires_in,
    }
}

fn new_manager() -> CodexAuthManager {
    CodexAuthManager::new(ISSUER, CLIENT, MARGIN)
}

fn manager_at(endpoint: &str) -> CodexAuthManager {
    CodexAuthManager::new_with_token_endpoint(CLIENT, endpoint.to_string(), MARGIN)
}

fn message(r: Result<StoredAuth, AuthError<String>>) -> String {
    r.unwrap_err().message("proxy").unwrap()
}

#[test]
fn get_auth_returns_stored() {
    let auth = stored("test_access", "test_refresh", 9999999999999, "acct_1");
    let mut world = World::new(Some(auth));
    let mut manager = new_manager();
    let result = world.get_auth(&mut manager).unwrap();
    assert_eq!(result.access, "test_access");
    assert_eq!(result.account_id.as_deref(), Some("acct_1"));
}

#[test]
fn get_auth_fails_when_no_auth() {
    let mut world = World::new(None);
    let mut manager = new_manager();
    assert!(world.get_auth(&mut manager).is_err());
    assert!(message(world.get_auth(&mut manager)).contains("Not authenticated"));
}

#[test]
fn concurrent_expired_auth_refreshes_once() {
    let mut world = World::new(Some(stored("expired", "stale", 0, "acct_1")));
    let granted = response("rotated", "rotated-refresh", Some(3600));
    world.replies.push(Reply::Tokens(Ok((granted, None))));
    let mut manager = manager_at("http://127.0.0.1:8080/oauth/token");

    // Both requests reach the lock before either of them gets it.
    let first = manager.get_auth(world.now);
    let first = world.run(&mut manager, first);
    let second = manager.get_auth(world.now);
    let second = world.run(&mut manager, second);
    let first = world.finish(&mut manager, first);
    let second = world.finish(&mut manager, second);
    let results = [first.unwrap(), second.unwrap()];

    assert_eq!(world.posts.len(), 1);
    assert!(world.posts[0]
        .form
        .contains(&("refresh_token".to_string(), "stale".to_string())));
    assert!(results.iter().all(|auth| auth.access == "rotated"));
    assert!(results.iter().all(|auth| auth.refresh == "rotated-refresh"));
}

#[test]
fn stale_401_reuses_already_rotated_auth() {
    let auth = stored("rotated", "rotated-refresh", u64::MAX, "acct_1");
    let mut world = World::new(Some(auth));
    let mut manager = manager_at("http://127.0.0.1:1/should-not-be-called");

    let auth = world.force_refresh(&mut manager, "rejected").unwrap();
    assert_eq!(auth.access, "rotated");
    assert_eq!(auth.refresh, "rotated-refresh");
    assert!(world.posts.is_empty());
}

#[test]
fn unauthorized_refresh_preserves_changed_refresh_token() {
    let auth = stored("same-access", "rejected-refresh", 0, "acct_1");
    let mut world = World::new(Some(auth));
    world.written_meanwhile = Some(stored(
        "same-access",
        "replacement-refresh",
        u64::MAX,
        "acct_1",
    ));
    let text = Some("rejected refresh token".to_string());
    world.replies.push(Reply::Rejected(401, text));
    let mut manager = manager_at("http://127.0.0.1:8080/oauth/token");

    let auth = world.get_auth(&mut manager).unwrap();
    assert_eq!(auth.access, "same-access");
    assert_eq!(auth.refresh, "replacement-refresh");
    assert_eq!(world.stored, Some(auth));
}

#[test]
fn durable_rotation_and_logout_are_observed_by_shared_manager() {
    let auth = stored("first", "first-refresh", u64::MAX, "acct_1");
    let mut world = World::new(Some(auth));
    // A lifetime of 0 disables the cache, so that outside writes are observed on the next read.
    let endpoint = format!("{ISSUER}/oauth/token");
    let mut manager = CodexAuthManager::new_with_config(CLIENT, endpoint, MARGIN, 0);
    assert_eq!(world.get_auth(&mut manager).unwrap().access, "first");

    world.stored = Some(stored("rotated", "rotated-refresh", u64::MAX, "acct_2"));
    let rotated = world.get_auth(&mut manager).unwrap();
    assert_eq!(rotated.access, "rotated");
    assert_eq!(rotated.account_id.as_deref(), Some("acct_2"));

    world.stored = None;
    assert!(world.get_auth(&mut manager).is_err());
}

#[test]
fn valid_auth_is_served_from_cache_within_ttl() {
    let auth = stored("cached", "cached-refresh", u64::MAX, "acct_1");
    let mut world = World::new(Some(auth));
    let mut manager = new_manager();
    assert_eq!(world.get_auth(&mut manager).unwrap().access, "cached");

    world.stored = Some(stored("rotated-out-of-band", "r", u64::MAX, "acct_1"));
    assert_eq!(world.get_auth(&mut manager).unwrap().access, "cached");
    assert_eq!(world.reads, 1);
}

#[test]
fn cache_ends_with_its_lifetime() {
    assert_eq!(AUTH_CACHE_TTL_MS, 5000);
    let mut world = World::new(Some(stored("a", "r", u64::MAX, "acct")));
    let mut manager = new_manager();
    assert_eq!(world.get_auth(&mut manager).unwrap().access, "a");
    world.stored = Some(stored("b", "r", u64::MAX, "acct"));
    world.now = NOW + 4999;
    assert_eq!(world.get_auth(&mut manager).unwrap().access, "a");
    world.now = NOW + 5000;
    assert_eq!(world.get_auth(&mut manager).unwrap().access, "b");
    assert_eq!(world.reads, 2);
}

#[test]
fn cache_survives_a_clock_that_goes_back() {
    let mut manager = new_manager();
    manager.cache_store(stored("a", "r", 1, "acct"), NOW);
    assert_eq!(manager.cache_get(NOW - 1_000_000).unwrap().access, "a");
    manager.cache_clear();
    assert_eq!(manager.cache_get(NOW), None);
}

#[test]
fn logout_empties_the_cache() {
    let mut world = World::new(None);
    let mut manager = new_manager();
    manager.cache_store(stored("a", "r", u64::MAX, "acct"), NOW - 5000);
    assert_eq!(
        message(world.get_auth(&mut manager)),
        "Not authenticated. Run: proxy codex auth login"
    );
    assert_eq!(manager.cache_get(NOW - 5000), None);
}

#[test]
fn tokens_are_rotated_from_the_margin_on() {
    let mut world = World::new(Some(stored("a", "r", NOW + MARGIN + 1, "acct")));
    let mut manager = new_manager();
    assert_eq!(manager.refresh_margin_ms(), MARGIN);
    assert_eq!(world.get_auth(&mut manager).unwrap().access, "a");
    assert!(world.posts.is_empty());

    world.now = NOW + 1;
    let granted = response("b", "s", None);
    world.replies.push(Reply::Tokens(Ok((granted, None))));
    assert_eq!(world.get_auth(&mut manager).unwrap().access, "b");
    assert_eq!(world.posts.len(), 1);
}

#[test]
fn refresh_request_is_a_form() {
    let mut world = World::new(Some(stored("a", "r", 0, "acct")));
    world.replies.push(Reply::Status(500));
    let mut manager = new_manager();
    assert_eq!(
        message(world.get_auth(&mut manager)),
        "Token refresh failed: 500"
    );
    let post = &world.posts[0];
    assert_eq!(post.endpoint, "https://issuer.test/oauth/token");
    let pair = |k: &str, v: &str| (k.to_string(), v.to_string());
    assert_eq!(
        post.form,
        vec![
            pair("client_id", "client_1"),
            pair("grant_type", "refresh_token"),
            pair("refresh_token", "r"),
        ]
    );
}

#[test]
fn rotation_is_saved_and_remembered() {
    assert_eq!(DEFAULT_EXPIRES_IN, 3600);
    let mut world = World::new(Some(stored("a", "r", 0, "acct")));
    let granted = response("b", "s", None);
    world.replies.push(Reply::Tokens(Ok((granted, None))));
    let mut manager = new_manager();
    let auth = world.get_auth(&mut manager).unwrap();
    // Without a lifetime the tokens last an hour; without an account they keep the one they had.
    assert_eq!(auth, stored("b", "s", NOW + 3_600_000, "acct"));
    assert_eq!(world.stored, Some(auth.clone()));
    assert_eq!(manager.cache_get(NOW), Some(auth));

    world.now = NOW + 10_000;
    let granted = response("c", "t", Some(60));
    let account = Some("other".to_string());
    world.replies.push(Reply::Tokens(Ok((granted, account))));
    let auth = world.force_refresh(&mut manager, "b").unwrap();
    assert_eq!(auth, stored("c", "t", NOW + 70_000, "other"));
}

#[test]
fn rejected_tokens_are_rotated_even_if_valid() {
    let mut world = World::new(Some(stored("a", "r", u64::MAX, "acct")));
    let granted = response("b", "s", Some(7200));
    world.replies.push(Reply::Tokens(Ok((granted, None))));
    let mut manager = new_manager();
    assert_eq!(world.force_refresh(&mut manager, "a").unwrap().access, "b");
    // A second request that was rejected with the same access token shares that rotation.
    assert_eq!(world.force_refresh(&mut manager, "a").unwrap().access, "b");
    assert_eq!(world.posts.len(), 1);
}

#[test]
fn forced_refresh_needs_no_clock() {
    let mut manager = new_manager();
    manager.set_test_auth(stored("a", "r", 0, "acct"));
    let step: AuthStep<String> = manager.force_refresh("a");
    let request = match step {
        AuthStep::Lock { request } => request,
        other => panic!("unexpected step {other:?}"),
    };
    let step: AuthStep<String> = manager.locked(request, u64::MAX);
    assert!(matches!(step, AuthStep::Send { .. }));
}

#[test]
fn rejected_refresh_drops_the_tokens() {
    for status in [401, 403] {
        let mut world = World::new(Some(stored("a", "r", 0, "acct")));
        let text = Some("token was revoked".to_string());
        world.replies.push(Reply::Rejected(status, text));
        let mut manager = new_manager();
        assert_eq!(message(world.get_auth(&mut manager)), "token was revoked");
        assert_eq!(world.stored, None);
        assert_eq!(manager.cache_get(NOW), None);
        assert_eq!(
            message(world.get_auth(&mut manager)),
            "Not authenticated. Run: proxy codex auth login"
        );
    }
}

#[test]
fn unreadable_rejection_has_a_message_of_its_own() {
    let mut world = World::new(Some(stored("a", "r", 0, "acct")));
    world.replies.push(Reply::Rejected(403, None));
    let mut manager = new_manager();
    let e = world.get_auth(&mut manager);
    assert_eq!(message(e), "Token refresh unauthorized");
}

#[test]
fn every_failure_of_a_refresh_is_described() {
    let mut manager = new_manager();

    let mut world = World::new(None);
    let e = world.force_refresh(&mut manager, "a");
    assert_eq!(message(e), "Not authenticated");

    let mut world = World::new(Some(stored("a", "", 0, "acct")));
    let e = world.get_auth(&mut manager);
    assert_eq!(message(e), "No refresh token stored; re-authenticate");
    manager.cache_clear();

    let mut world = World::new(Some(stored("a", "r", 0, "acct")));
    world.replies.push(Reply::Unreachable("refused".to_string()));
    let e = world.get_auth(&mut manager);
    assert_eq!(message(e), "refresh network error: refused");

    let reason = "expected value".to_string();
    let unreadable = Err(TokenFailure::Unreadable { reason });
    world.replies.push(Reply::Tokens(unreadable));
    let e = world.get_auth(&mut manager);
    assert_eq!(message(e), "failed to parse token response: expected value");

    let error = "empty access token".to_string();
    let invalid = Err(TokenFailure::Invalid { error });
    world.replies.push(Reply::Tokens(invalid));
    let e = world.get_auth(&mut manager).unwrap_err();
    assert_eq!(e.message("proxy"), None);
    assert!(matches!(e, AuthError::Outside { error } if error == "empty access token"));

    for (status, expected) in [
        (0, "Token refresh failed: 0"),
        (199, "Token refresh failed: 199"),
        (302, "Token refresh failed: 302"),
        (400, "Token refresh failed: 400"),
        (65535, "Token refresh failed: 65535"),
    ] {
        world.replies.push(Reply::Status(status));
        assert_eq!(message(world.get_auth(&mut manager)), expected);
    }
    // None of these failures touches the durable store.
    assert_eq!(world.stored, Some(stored("a", "r", 0, "acct")));
}

#[test]
fn outside_failures_are_passed_on_and_change_nothing() {
    let mut world = World::new(Some(stored("a", "r", 0, "acct")));
    let mut manager = new_manager();
    world.fail_reads = true;
    let e = world.get_auth(&mut manager).unwrap_err();
    assert!(matches!(e, AuthError::Outside { error } if error == "keychain is locked"));
    assert_eq!(manager.cache_get(NOW), None);

    world.fail_reads = false;
    world.fail_writes = true;
    let granted = response("b", "s", None);
    world.replies.push(Reply::Tokens(Ok((granted, None))));
    let e = world.get_auth(&mut manager).unwrap_err();
    assert!(matches!(e, AuthError::Outside { error } if error == "keychain is full"));
    assert_eq!(manager.cache_get(NOW).unwrap().access, "a");

    world.replies.push(Reply::Rejected(401, None));
    let e = world.get_auth(&mut manager).unwrap_err();
    assert!(matches!(e, AuthError::Outside { error } if error == "keychain is full"));
    assert_eq!(manager.cache_get(NOW).unwrap().access, "a");
}

#[test]
fn initial_tokens_are_kept() {
    let mut world = World::new(None);
    let mut manager = new_manager();
    let tokens = response("a", "r", Some(120));
    let account = Some("acct".to_string());
    let step = manager.persist_initial_tokens(&tokens, Ok(()), account, NOW);
    let auth = world.finish(&mut manager, step).unwrap();
    assert_eq!(auth, stored("a", "r", NOW + 120_000, "acct"));
    assert_eq!(world.stored, Some(auth.clone()));
    assert_eq!(manager.cache_get(NOW), Some(auth));

    let tokens = response("b", "s", None);
    let step = manager.persist_initial_tokens(&tokens, Ok(()), None, NOW);
    let auth = world.finish(&mut manager, step).unwrap();
    assert_eq!(auth.expires, NOW + 3_600_000);
    assert_eq!(auth.account_id, None);

    let invalid = Err("no refresh token".to_string());
    let step = manager.persist_initial_tokens(&tokens, invalid, None, u64::MAX);
    let e = world.finish(&mut manager, step).unwrap_err();
    assert!(matches!(e, AuthError::Outside { error } if error == "no refresh token"));
}

#[test]
fn test_auth_takes_precedence() {
    let mut world = World::new(Some(stored("a", "r", u64::MAX, "acct")));
    let mut manager = new_manager();
    manager.set_test_auth(stored("fixed", "f", u64::MAX, "acct"));
    assert_eq!(world.get_auth(&mut manager).unwrap().access, "fixed");
    assert_eq!(world.reads, 0);
}

#[test]
fn tokens_differ_in_any_field() {
    let a = stored("a", "r", 1, "acct");
    assert!(a.same_as(&a.clone()));
    assert!(!a.same_as(&stored("b", "r", 1, "acct")));
    assert!(!a.same_as(&stored("a", "s", 1, "acct")));
    assert!(!a.same_as(&stored("a", "r", 2, "acct")));
    assert!(!a.same_as(&stored("a", "r", 1, "other")));
    let mut none = a.clone();
    none.account_id = None;
    assert!(!a.same_as(&none));
    assert!(!none.same_as(&a));
    assert!(none.same_as(&none.clone()));
}

#[test]
fn expired_tokens_lead_to_the_lock() {
    let mut manager = new_manager();
    let step = manager.loaded(Then::Serve, Ok(Some(stored("a", "r", 0, "acct"))), NOW);
    let step: AuthStep<String> = step;
    match step {
        AuthStep::Lock { request } => {
            assert!(!request.force);
            assert_eq!(request.rejected_access, None);
        }
        other => panic!("unexpected step {other:?}"),
    }
}

#[test]
fn requests_are_sent_under_the_lock() {
    let mut world = World::new(Some(stored("a", "r", 0, "acct")));
    let mut manager = new_manager();
    // Without the lock, expired or rejected tokens lead to the lock and to no request.
    let first = manager.get_auth(world.now);
    let first = world.run(&mut manager, first);
    assert!(matches!(first, AuthStep::Lock { .. }));
    let second: AuthStep<String> = manager.force_refresh("a");
    let second = world.run(&mut manager, second);
    assert!(matches!(second, AuthStep::Lock { .. }));
    assert!(world.posts.is_empty());
    // The first one drops out with the tokens of someone else; the second one shares them.
    world.written_meanwhile = Some(stored("b", "s", u64::MAX, "acct"));
    world.replies.push(Reply::Rejected(401, None));
    assert_eq!(world.finish(&mut manager, first).unwrap().access, "b");
    assert_eq!(world.finish(&mut manager, second).unwrap().access, "b");
    assert_eq!(world.posts.len(), 1);
}

#[test]
fn refresh_reloads_from_the_store() {
    let mut world = World::new(Some(stored("old", "r", 0, "acct")));
    let mut manager = new_manager();
    let step = manager.get_auth(world.now);
    let step = world.run(&mut manager, step);
    // Someone outside logs in again while the expired tokens are still in memory.
    assert_eq!(manager.cache_get(NOW).unwrap().access, "old");
    world.stored = Some(stored("new", "s", u64::MAX, "acct"));
    assert_eq!(world.finish(&mut manager, step).unwrap().access, "new");
    assert!(world.posts.is_empty());
    assert_eq!(manager.cache_get(NOW).unwrap().access, "new");

    // The same holds of a forced refresh, of which memory holds the rejected tokens.
    world.stored = Some(stored("newer", "t", u64::MAX, "acct"));
    assert_eq!(world.force_refresh(&mut manager, "new").unwrap().access, "newer");
    assert!(world.posts.is_empty());
}

#[test]
fn a_burst_shares_one_read() {
    let mut world = World::new(Some(stored("a", "r", u64::MAX, "acct")));
    let mut manager = new_manager();
    let burst: Vec<AuthStep<String>> = (0..3).map(|_| manager.get_auth(NOW)).collect();
    // All of them miss the cache, and the read lock lets them in one by one.
    for step in burst {
        assert!(matches!(step, AuthStep::LockRead));
        world.now += 1;
        assert_eq!(world.finish(&mut manager, step).unwrap().access, "a");
    }
    assert_eq!(world.reads, 1);

    // Expired tokens are shared as well, before they are rotated.
    let mut world = World::new(Some(stored("a", "r", 0, "acct")));
    let mut manager = new_manager();
    let burst: Vec<AuthStep<String>> = (0..3).map(|_| manager.get_auth(NOW)).collect();
    for step in burst {
        let step = world.run(&mut manager, step);
        assert!(matches!(step, AuthStep::Lock { .. }));
    }
    assert_eq!(world.reads, 1);
}
