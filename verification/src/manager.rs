//! Decisions about stored OAuth tokens: when they are served, reloaded, rotated or dropped.
//!
//! A [`CodexAuthManager`] does no I/O. Each of its methods takes what a read, a request or the
//! clock gave and returns the next [`AuthStep`]. A driver performs the step and hands the outcome
//! to the method that the step names, until the step is [`AuthStep::Done`]. It holds the read lock
//! from [`AuthStep::LockRead`] until the step is no [`AuthStep::Load`], so that a burst of requests
//! shares one read, and the refresh lock from [`AuthStep::Lock`] to the end, so that refreshes run
//! one at a time.
use vstd::prelude::*;

use crate::text;

verus! {

/// How long a read of the durable store is trusted, in milliseconds. A read may be expensive, so
/// that a burst of requests has to share one: those that come while it is under way wait for it,
/// and those that come later are served from memory. An outside change is still observed shortly
/// after.
pub const AUTH_CACHE_TTL_MS: u64 = 5_000;

/// The lifetime of an access token for which the issuer gives none, in seconds.
pub const DEFAULT_EXPIRES_IN: u64 = 3_600;

/// Tokens as they are kept in the durable store.
#[derive(Debug, PartialEq, Eq)]
pub struct StoredAuth {
    pub access: String,
    pub refresh: String,
    /// When the access token expires, in milliseconds since the Unix epoch.
    pub expires: u64,
    pub account_id: Option<String>,
}

/// The content of a [`StoredAuth`].
pub struct Auth {
    pub access: Seq<char>,
    pub refresh: Seq<char>,
    pub expires: u64,
    pub account_id: Option<Seq<char>>,
}

impl View for StoredAuth {
    type V = Auth;

    open spec fn view(&self) -> Auth {
        Auth {
            access: self.access@,
            refresh: self.refresh@,
            expires: self.expires,
            account_id: text::optional_text(self.account_id),
        }
    }
}

/// The content of optional tokens.
pub open spec fn optional_auth(a: Option<StoredAuth>) -> Option<Auth> {
    match a {
        Some(a) => Some(a@),
        None => None,
    }
}

impl Clone for StoredAuth {
    fn clone(&self) -> (r: Self)
        ensures
            r@ == self@,
    {
        StoredAuth {
            access: self.access.clone(),
            refresh: self.refresh.clone(),
            expires: self.expires,
            account_id: text::copy_optional(&self.account_id),
        }
    }
}

impl StoredAuth {
    /// Whether two tokens are the same in every field.
    pub fn same_as(&self, other: &StoredAuth) -> (r: bool)
        ensures
            r == (self@ == other@),
    {
        let same_account = match (&self.account_id, &other.account_id) {
            (Some(a), Some(b)) => text::same_text(a.as_str(), b.as_str()),
            (None, None) => true,
            _ => false,
        };
        same_account && self.expires == other.expires && text::same_text(
            self.access.as_str(),
            other.access.as_str(),
        ) && text::same_text(self.refresh.as_str(), other.refresh.as_str())
    }
}

/// What the issuer grants.
#[derive(Debug, Clone)]
pub struct TokenResponse {
    pub access_token: String,
    pub refresh_token: String,
    pub expires_in: Option<u64>,
}

/// The lifetime of granted tokens, in seconds.
pub open spec fn lifetime(tokens: TokenResponse) -> u64 {
    match tokens.expires_in {
        Some(n) => n,
        None => DEFAULT_EXPIRES_IN,
    }
}

/// Whether the expiry of tokens granted at `now_ms` can be represented.
pub open spec fn expiry_fits(tokens: TokenResponse, now_ms: u64) -> bool {
    now_ms + lifetime(tokens) * 1000 <= u64::MAX
}

/// The tokens to keep of those granted at `now_ms`.
pub open spec fn granted(
    tokens: TokenResponse,
    account_id: Option<Seq<char>>,
    now_ms: u64,
) -> Auth {
    Auth {
        access: tokens.access_token@,
        refresh: tokens.refresh_token@,
        expires: (now_ms + lifetime(tokens) * 1000) as u64,
        account_id,
    }
}

fn grant(tokens: &TokenResponse, account_id: Option<String>, now_ms: u64) -> (r: StoredAuth)
    requires
        expiry_fits(*tokens, now_ms),
    ensures
        r@ == granted(*tokens, text::optional_text(account_id), now_ms),
{
    let seconds: u64 = match tokens.expires_in {
        Some(n) => n,
        None => DEFAULT_EXPIRES_IN,
    };
    StoredAuth {
        access: tokens.access_token.clone(),
        refresh: tokens.refresh_token.clone(),
        expires: now_ms + seconds * 1000,
        account_id,
    }
}

/// Why a request gets no tokens. `E` is the error of the durable store or of the validation of
/// granted tokens, which is passed on as it is.
#[derive(Debug)]
pub enum AuthError<E> {
    /// There are no tokens to serve.
    NotLoggedIn,
    /// There are no tokens to refresh.
    NotAuthenticated,
    NoRefreshToken,
    Network { reason: String },
    Unauthorized { reason: String },
    RefreshFailed { status: u16 },
    BadTokenResponse { reason: String },
    Outside { error: E },
}

/// The content of an [`AuthError`].
pub enum Failure<E> {
    NotLoggedIn,
    NotAuthenticated,
    NoRefreshToken,
    Network { reason: Seq<char> },
    Unauthorized { reason: Seq<char> },
    RefreshFailed { status: u16 },
    BadTokenResponse { reason: Seq<char> },
    Outside { error: E },
}

impl<E> View for AuthError<E> {
    type V = Failure<E>;

    open spec fn view(&self) -> Failure<E> {
        match *self {
            AuthError::NotLoggedIn => Failure::NotLoggedIn,
            AuthError::NotAuthenticated => Failure::NotAuthenticated,
            AuthError::NoRefreshToken => Failure::NoRefreshToken,
            AuthError::Network { reason } => Failure::Network { reason: reason@ },
            AuthError::Unauthorized { reason } => Failure::Unauthorized { reason: reason@ },
            AuthError::RefreshFailed { status } => Failure::RefreshFailed { status },
            AuthError::BadTokenResponse { reason } => Failure::BadTokenResponse {
                reason: reason@,
            },
            AuthError::Outside { error } => Failure::Outside { error },
        }
    }
}

pub open spec fn digit_text(d: nat) -> Seq<char> {
    if d == 0 {
        "0"@
    } else if d == 1 {
        "1"@
    } else if d == 2 {
        "2"@
    } else if d == 3 {
        "3"@
    } else if d == 4 {
        "4"@
    } else if d == 5 {
        "5"@
    } else if d == 6 {
        "6"@
    } else if d == 7 {
        "7"@
    } else if d == 8 {
        "8"@
    } else {
        "9"@
    }
}

/// `n` in decimal.
pub open spec fn decimal_text(n: nat) -> Seq<char>
    decreases n,
{
    if n < 10 {
        digit_text(n)
    } else {
        decimal_text(n / 10) + digit_text(n % 10)
    }
}

fn digit(d: u16) -> (r: &'static str)
    requires
        d < 10,
    ensures
        r@ == digit_text(d as nat),
{
    match d {
        0 => "0",
        1 => "1",
        2 => "2",
        3 => "3",
        4 => "4",
        5 => "5",
        6 => "6",
        7 => "7",
        8 => "8",
        _ => "9",
    }
}

fn decimal(n: u16) -> (r: String)
    ensures
        r@ == decimal_text(n as nat),
    decreases n,
{
    if n < 10 {
        digit(n).to_owned()
    } else {
        let mut s = decimal(n / 10);
        s.append(digit(n % 10));
        s
    }
}

/// What a failure says, where `program` is the command that logs in. The error of an outside
/// operation speaks for itself.
pub open spec fn failure_text<E>(f: Failure<E>, program: Seq<char>) -> Option<Seq<char>> {
    match f {
        Failure::NotLoggedIn => Some(
            "Not authenticated. Run: "@ + program + " codex auth login"@,
        ),
        Failure::NotAuthenticated => Some("Not authenticated"@),
        Failure::NoRefreshToken => Some("No refresh token stored; re-authenticate"@),
        Failure::Network { reason } => Some("refresh network error: "@ + reason),
        Failure::Unauthorized { reason } => Some(reason),
        Failure::RefreshFailed { status } => Some(
            "Token refresh failed: "@ + decimal_text(status as nat),
        ),
        Failure::BadTokenResponse { reason } => Some("failed to parse token response: "@ + reason),
        Failure::Outside { .. } => None,
    }
}

impl<E> AuthError<E> {
    /// The message of an error, unless it is an outside one. `program` is the command that logs
    /// in.
    pub fn message(&self, program: &str) -> (r: Option<String>)
        ensures
            text::optional_text(r) == failure_text(self@, program@),
    {
        match self {
            AuthError::NotLoggedIn => {
                let mut s = "Not authenticated. Run: ".to_owned();
                s.append(program);
                s.append(" codex auth login");
                Some(s)
            },
            AuthError::NotAuthenticated => Some("Not authenticated".to_owned()),
            AuthError::NoRefreshToken => Some(
                "No refresh token stored; re-authenticate".to_owned(),
            ),
            AuthError::Network { reason } => {
                let mut s = "refresh network error: ".to_owned();
                s.append(reason.as_str());
                Some(s)
            },
            AuthError::Unauthorized { reason } => Some(reason.clone()),
            AuthError::RefreshFailed { status } => {
                let mut s = "Token refresh failed: ".to_owned();
                s.append(decimal(*status).as_str());
                Some(s)
            },
            AuthError::BadTokenResponse { reason } => {
                let mut s = "failed to parse token response: ".to_owned();
                s.append(reason.as_str());
                Some(s)
            },
            AuthError::Outside { .. } => None,
        }
    }
}

/// What a refresh was asked for: whether even valid tokens are rotated, and the access token that
/// was rejected, if one was.
#[derive(Debug, Clone)]
pub struct RefreshRequest {
    pub force: bool,
    pub rejected_access: Option<String>,
}

/// What happens with the tokens once they are loaded.
#[derive(Debug, Clone)]
pub enum Then {
    Serve,
    Refresh { request: RefreshRequest },
}

/// The content of a [`Then`].
pub enum Goal {
    Serve,
    Refresh { force: bool, rejected: Option<Seq<char>> },
}

impl View for RefreshRequest {
    type V = Goal;

    open spec fn view(&self) -> Goal {
        Goal::Refresh { force: self.force, rejected: text::optional_text(self.rejected_access) }
    }
}

impl View for Then {
    type V = Goal;

    open spec fn view(&self) -> Goal {
        match *self {
            Then::Serve => Goal::Serve,
            Then::Refresh { request } => request@,
        }
    }
}

/// A request to the token endpoint.
#[derive(Debug, Clone)]
pub struct RefreshPost {
    pub endpoint: String,
    pub form: Vec<(String, String)>,
}

/// The content of a form.
pub open spec fn form_of(form: Seq<(String, String)>) -> Seq<(Seq<char>, Seq<char>)> {
    form.map_values(|f: (String, String)| (f.0@, f.1@))
}

/// What is to be done next, and the method that takes the outcome.
#[derive(Debug)]
pub enum AuthStep<E> {
    /// Take the read lock; [`CodexAuthManager::load_auth`].
    LockRead,
    /// Read the durable store; [`CodexAuthManager::loaded`].
    Load { then: Then },
    /// Take the refresh lock; [`CodexAuthManager::locked`].
    Lock { request: RefreshRequest },
    /// Send the request; [`CodexAuthManager::responded`].
    Send { post: RefreshPost, current: StoredAuth },
    /// Read the durable store, not the cache; [`CodexAuthManager::latest_loaded`].
    LoadLatest { current: StoredAuth },
    /// Clear the durable store; [`CodexAuthManager::cleared`].
    Clear,
    /// Read the response as text; [`CodexAuthManager::error_text_read`].
    ReadErrorText,
    /// Read the response as tokens and validate them; [`CodexAuthManager::tokens_read`].
    ReadTokens { current: StoredAuth },
    /// Write the durable store; [`CodexAuthManager::saved`].
    Save { auth: StoredAuth },
    Done { result: Result<StoredAuth, AuthError<E>> },
}

/// The content of an [`AuthStep`].
pub enum Next<E> {
    LockRead,
    Load { then: Goal },
    Lock { request: Goal },
    Send { endpoint: Seq<char>, form: Seq<(Seq<char>, Seq<char>)>, current: Auth },
    LoadLatest { current: Auth },
    Clear,
    ReadErrorText,
    ReadTokens { current: Auth },
    Save { auth: Auth },
    Done { result: Result<Auth, Failure<E>> },
}

impl<E> View for AuthStep<E> {
    type V = Next<E>;

    open spec fn view(&self) -> Next<E> {
        match *self {
            AuthStep::LockRead => Next::LockRead,
            AuthStep::Load { then } => Next::Load { then: then@ },
            AuthStep::Lock { request } => Next::Lock { request: request@ },
            AuthStep::Send { post, current } => Next::Send {
                endpoint: post.endpoint@,
                form: form_of(post.form@),
                current: current@,
            },
            AuthStep::LoadLatest { current } => Next::LoadLatest { current: current@ },
            AuthStep::Clear => Next::Clear,
            AuthStep::ReadErrorText => Next::ReadErrorText,
            AuthStep::ReadTokens { current } => Next::ReadTokens { current: current@ },
            AuthStep::Save { auth } => Next::Save { auth: auth@ },
            AuthStep::Done { result } => Next::Done {
                result: match result {
                    Ok(a) => Ok(a@),
                    Err(e) => Err(e@),
                },
            },
        }
    }
}

/// Why granted tokens cannot be used.
#[derive(Debug)]
pub enum TokenFailure<E> {
    /// The response holds no tokens.
    Unreadable { reason: String },
    /// The tokens do not pass validation.
    Invalid { error: E },
}

/// The state that requests share.
pub struct CodexAuthManager {
    test_auth: Option<StoredAuth>,
    // Value plus the time (ms) at which it was read from the durable store.
    auth_cache: Option<(StoredAuth, u64)>,
    cache_ttl_ms: u64,
    refresh_margin_ms: u64,
    client_id: String,
    token_endpoint: String,
}

/// The content of a [`CodexAuthManager`].
#[verifier::ext_equal]
pub struct Manager {
    /// Tokens that take precedence over all others.
    pub test_auth: Option<Auth>,
    /// The tokens in memory and when they were read or written.
    pub cache: Option<(Auth, u64)>,
    pub ttl: u64,
    /// How long before their expiry tokens are rotated.
    pub margin: u64,
    pub client_id: Seq<char>,
    pub endpoint: Seq<char>,
}

impl View for CodexAuthManager {
    type V = Manager;

    closed spec fn view(&self) -> Manager {
        Manager {
            test_auth: optional_auth(self.test_auth),
            cache: match self.auth_cache {
                Some((a, at)) => Some((a@, at)),
                None => None,
            },
            ttl: self.cache_ttl_ms,
            margin: self.refresh_margin_ms,
            client_id: self.client_id@,
            endpoint: self.token_endpoint@,
        }
    }
}

/// A manager with nothing in memory.
pub open spec fn new_manager(
    client_id: Seq<char>,
    endpoint: Seq<char>,
    margin: u64,
    ttl: u64,
) -> Manager {
    Manager { test_auth: None, cache: None, ttl, margin, client_id, endpoint }
}

/// The time from `at` to `now`, none if the clock went back.
pub open spec fn age(now: u64, at: u64) -> int {
    if now >= at {
        now - at
    } else {
        0
    }
}

/// The tokens in memory, while they are trusted.
pub open spec fn cached(m: Manager, now: u64) -> Option<Auth> {
    match m.cache {
        Some((a, at)) => if m.ttl > 0 && age(now, at) < m.ttl {
            Some(a)
        } else {
            None
        },
        None => None,
    }
}

/// The tokens that are served without a read of the durable store.
pub open spec fn held(m: Manager, now: u64) -> Option<Auth> {
    match m.test_auth {
        Some(a) => Some(a),
        None => cached(m, now),
    }
}

pub open spec fn remember(m: Manager, a: Auth, now: u64) -> Manager {
    Manager { cache: Some((a, now)), ..m }
}

pub open spec fn forget(m: Manager) -> Manager {
    Manager { cache: None, ..m }
}

/// Whether the margin before an expiry can be added to the clock, where that is needed: a forced
/// refresh asks for no expiry.
pub open spec fn clock_fits(m: Manager, goal: Goal, now: u64) -> bool {
    (goal matches Goal::Refresh { force, .. } && force) || now + m.margin <= u64::MAX
}

/// Whether tokens are valid for longer than the margin.
pub open spec fn fresh(m: Manager, a: Auth, now: u64) -> bool {
    a.expires > now + m.margin
}

/// The form that asks for new tokens.
pub open spec fn refresh_form(client_id: Seq<char>, refresh: Seq<char>) -> Seq<
    (Seq<char>, Seq<char>),
> {
    seq![
        ("client_id"@, client_id),
        ("grant_type"@, "refresh_token"@),
        ("refresh_token"@, refresh),
    ]
}

/// Tokens are rotated with their refresh token, if they have one.
pub open spec fn rotate<E>(m: Manager, current: Auth) -> Next<E> {
    if current.refresh.len() == 0 {
        Next::Done { result: Err(Failure::NoRefreshToken) }
    } else {
        Next::Send {
            endpoint: m.endpoint,
            form: refresh_form(m.client_id, current.refresh),
            current,
        }
    }
}

/// What happens with the tokens at hand. A refresh keeps them if they are fresh and it is not
/// forced, or if another access token than the present one was rejected: then they have been
/// rotated meanwhile.
pub open spec fn proceed<E>(m: Manager, goal: Goal, a: Auth, now: u64) -> Next<E> {
    match goal {
        Goal::Serve => if fresh(m, a, now) {
            Next::Done { result: Ok(a) }
        } else {
            Next::Lock { request: Goal::Refresh { force: false, rejected: None } }
        },
        Goal::Refresh { force, rejected } => if (!force && fresh(m, a, now)) || (
        rejected is Some && rejected.unwrap() != a.access) {
            Next::Done { result: Ok(a) }
        } else {
            rotate(m, a)
        },
    }
}

/// A request for tokens uses those at hand, and takes the read lock where there are none.
pub open spec fn ask<E>(m: Manager, now: u64) -> Next<E> {
    match held(m, now) {
        Some(a) => proceed(m, Goal::Serve, a, now),
        None => Next::LockRead,
    }
}

/// Under the read lock, the durable store is read unless a read that was waited for has brought
/// tokens meanwhile.
pub open spec fn load<E>(m: Manager, now: u64) -> Next<E> {
    match held(m, now) {
        Some(a) => proceed(m, Goal::Serve, a, now),
        None => Next::Load { then: Goal::Serve },
    }
}

/// Under the refresh lock, the tokens are read from the durable store, whatever is in memory:
/// they may have been rotated while the request waited, here or outside.
pub open spec fn reload<E>(m: Manager, goal: Goal, now: u64) -> Next<E> {
    match m.test_auth {
        Some(a) => proceed(m, goal, a, now),
        None => Next::Load { then: goal },
    }
}

/// The failure where the durable store holds no tokens.
pub open spec fn missing<E>(goal: Goal) -> Failure<E> {
    match goal {
        Goal::Serve => Failure::NotLoggedIn,
        Goal::Refresh { .. } => Failure::NotAuthenticated,
    }
}

/// A read of the durable store is remembered and used.
pub open spec fn after_load<E>(
    m: Manager,
    goal: Goal,
    outcome: Result<Option<StoredAuth>, E>,
    now: u64,
) -> (Manager, Next<E>) {
    match outcome {
        Ok(Some(a)) => {
            let n = remember(m, a@, now);
            (n, proceed(n, goal, a@, now))
        },
        Ok(None) => (forget(m), Next::Done { result: Err(missing(goal)) }),
        Err(error) => (m, Next::Done { result: Err(Failure::Outside { error }) }),
    }
}

/// What a response of the token endpoint means.
pub open spec fn after_response<E>(current: Auth, outcome: Result<u16, String>) -> Next<E> {
    match outcome {
        Ok(status) => if status == 401 || status == 403 {
            Next::LoadLatest { current }
        } else if 200 <= status <= 299 {
            Next::ReadTokens { current }
        } else {
            Next::Done { result: Err(Failure::RefreshFailed { status }) }
        },
        Err(reason) => Next::Done { result: Err(Failure::Network { reason: reason@ }) },
    }
}

/// After a rejection, tokens that were changed meanwhile are served, and the rejected ones are
/// dropped.
pub open spec fn after_latest<E>(
    m: Manager,
    current: Auth,
    outcome: Result<Option<StoredAuth>, E>,
    now: u64,
) -> (Manager, Next<E>) {
    match outcome {
        Ok(Some(latest)) => if latest@ != current {
            (remember(m, latest@, now), Next::Done { result: Ok(latest@) })
        } else {
            (m, Next::Clear)
        },
        Ok(None) => (m, Next::Clear),
        Err(error) => (m, Next::Done { result: Err(Failure::Outside { error }) }),
    }
}

pub open spec fn after_clear<E>(m: Manager, outcome: Result<(), E>) -> (Manager, Next<E>) {
    match outcome {
        Ok(_) => (forget(m), Next::ReadErrorText),
        Err(error) => (m, Next::Done { result: Err(Failure::Outside { error }) }),
    }
}

/// A response that rejected the tokens ends the request with its text.
pub open spec fn after_error_text<E>(outcome: Option<String>) -> Next<E> {
    Next::Done {
        result: Err(
            Failure::Unauthorized {
                reason: match outcome {
                    Some(reason) => reason@,
                    None => "Token refresh unauthorized"@,
                },
            },
        ),
    }
}

/// The account of rotated tokens: the granted one, or else the one they had.
pub open spec fn account_of(account_id: Option<String>, current: Auth) -> Option<Seq<char>> {
    match account_id {
        Some(id) => Some(id@),
        None => current.account_id,
    }
}

/// What is done with the tokens in a response.
pub open spec fn after_tokens<E>(
    current: Auth,
    outcome: Result<(TokenResponse, Option<String>), TokenFailure<E>>,
    now: u64,
) -> Next<E> {
    match outcome {
        Ok((tokens, account_id)) => Next::Save {
            auth: granted(tokens, account_of(account_id, current), now),
        },
        Err(TokenFailure::Unreadable { reason }) => Next::Done {
            result: Err(Failure::BadTokenResponse { reason: reason@ }),
        },
        Err(TokenFailure::Invalid { error }) => Next::Done {
            result: Err(Failure::Outside { error }),
        },
    }
}

/// Saved tokens are remembered and served.
pub open spec fn after_save<E>(
    m: Manager,
    auth: Auth,
    outcome: Result<(), E>,
    now: u64,
) -> (Manager, Next<E>) {
    match outcome {
        Ok(_) => (remember(m, auth, now), Next::Done { result: Ok(auth) }),
        Err(error) => (m, Next::Done { result: Err(Failure::Outside { error }) }),
    }
}

impl CodexAuthManager {
    /// A manager that rotates tokens of `client_id` at the issuer's token endpoint,
    /// `refresh_margin_ms` before they expire.
    pub fn new(issuer: &str, client_id: &str, refresh_margin_ms: u64) -> (r: Self)
        ensures
            r@ == new_manager(
                client_id@,
                issuer@ + "/oauth/token"@,
                refresh_margin_ms,
                AUTH_CACHE_TTL_MS,
            ),
    {
        let mut endpoint = issuer.to_owned();
        endpoint.append("/oauth/token");
        Self::new_with_config(client_id, endpoint, refresh_margin_ms, AUTH_CACHE_TTL_MS)
    }

    /// A manager with a token endpoint of its own.
    pub fn new_with_token_endpoint(
        client_id: &str,
        token_endpoint: String,
        refresh_margin_ms: u64,
    ) -> (r: Self)
        ensures
            r@ == new_manager(client_id@, token_endpoint@, refresh_margin_ms, AUTH_CACHE_TTL_MS),
    {
        Self::new_with_config(client_id, token_endpoint, refresh_margin_ms, AUTH_CACHE_TTL_MS)
    }

    /// A manager with a token endpoint and a cache lifetime of its own. A lifetime of 0 disables
    /// the cache.
    pub fn new_with_config(
        client_id: &str,
        token_endpoint: String,
        refresh_margin_ms: u64,
        cache_ttl_ms: u64,
    ) -> (r: Self)
        ensures
            r@ == new_manager(client_id@, token_endpoint@, refresh_margin_ms, cache_ttl_ms),
    {
        CodexAuthManager {
            test_auth: None,
            auth_cache: None,
            cache_ttl_ms,
            refresh_margin_ms,
            client_id: client_id.to_owned(),
            token_endpoint,
        }
    }

    /// How long before their expiry tokens are rotated.
    pub fn refresh_margin_ms(&self) -> (r: u64)
        ensures
            r == self@.margin,
    {
        self.refresh_margin_ms
    }

    pub fn cache_store(&mut self, auth: StoredAuth, now_ms: u64)
        ensures
            final(self)@ == remember(old(self)@, auth@, now_ms),
    {
        self.auth_cache = Some((auth, now_ms));
    }

    pub fn cache_clear(&mut self)
        ensures
            final(self)@ == forget(old(self)@),
    {
        self.auth_cache = None;
    }

    pub fn cache_get(&self, now_ms: u64) -> (r: Option<StoredAuth>)
        ensures
            optional_auth(r) == cached(self@, now_ms),
    {
        if self.cache_ttl_ms == 0 {
            return None;
        }
        match &self.auth_cache {
            Some((auth, loaded_at)) => if now_ms.saturating_sub(*loaded_at) < self.cache_ttl_ms {
                Some(auth.clone())
            } else {
                None
            },
            None => None,
        }
    }

    /// Fixes the tokens that are served.
    pub fn set_test_auth(&mut self, auth: StoredAuth)
        ensures
            final(self)@ == (Manager { test_auth: Some(auth@), ..old(self)@ }),
    {
        self.test_auth = Some(auth);
    }

    fn held(&self, now_ms: u64) -> (r: Option<StoredAuth>)
        ensures
            optional_auth(r) == held(self@, now_ms),
    {
        match &self.test_auth {
            Some(auth) => Some(auth.clone()),
            None => self.cache_get(now_ms),
        }
    }

    fn is_fresh(&self, auth: &StoredAuth, now_ms: u64) -> (r: bool)
        requires
            now_ms + self@.margin <= u64::MAX,
        ensures
            r == fresh(self@, auth@, now_ms),
    {
        auth.expires > now_ms + self.refresh_margin_ms
    }

    fn refresh_now<E>(&self, current: StoredAuth) -> (r: AuthStep<E>)
        ensures
            r@ == rotate::<E>(self@, current@),
    {
        if current.refresh.as_str().is_empty() {
            return AuthStep::Done { result: Err(AuthError::NoRefreshToken) };
        }
        let mut form: Vec<(String, String)> = Vec::new();
        form.push(("client_id".to_owned(), self.client_id.clone()));
        form.push(("grant_type".to_owned(), "refresh_token".to_owned()));
        form.push(("refresh_token".to_owned(), current.refresh.clone()));
        proof {
            assert(form_of(form@) =~= refresh_form(self@.client_id, current@.refresh));
        }
        AuthStep::Send {
            post: RefreshPost { endpoint: self.token_endpoint.clone(), form },
            current,
        }
    }

    fn proceed<E>(&self, then: Then, auth: StoredAuth, now_ms: u64) -> (r: AuthStep<E>)
        requires
            clock_fits(self@, then@, now_ms),
        ensures
            r@ == proceed::<E>(self@, then@, auth@, now_ms),
    {
        match then {
            Then::Serve => if self.is_fresh(&auth, now_ms) {
                AuthStep::Done { result: Ok(auth) }
            } else {
                AuthStep::Lock { request: RefreshRequest { force: false, rejected_access: None } }
            },
            Then::Refresh { request } => {
                let rotated_meanwhile = match &request.rejected_access {
                    Some(access) => !text::same_text(access.as_str(), auth.access.as_str()),
                    None => false,
                };
                if (!request.force && self.is_fresh(&auth, now_ms)) || rotated_meanwhile {
                    AuthStep::Done { result: Ok(auth) }
                } else {
                    self.refresh_now(auth)
                }
            },
        }
    }

    /// Starts a request for tokens.
    pub fn get_auth<E>(&self, now_ms: u64) -> (r: AuthStep<E>)
        requires
            held(self@, now_ms) is Some ==> clock_fits(self@, Goal::Serve, now_ms),
        ensures
            r@ == ask::<E>(self@, now_ms),
    {
        match self.held(now_ms) {
            Some(auth) => self.proceed(Then::Serve, auth, now_ms),
            None => AuthStep::LockRead,
        }
    }

    /// Goes on under the read lock. Another request may have read the durable store while this
    /// one waited, and then its tokens are used.
    pub fn load_auth<E>(&self, now_ms: u64) -> (r: AuthStep<E>)
        requires
            held(self@, now_ms) is Some ==> clock_fits(self@, Goal::Serve, now_ms),
        ensures
            r@ == load::<E>(self@, now_ms),
    {
        match self.held(now_ms) {
            Some(auth) => self.proceed(Then::Serve, auth, now_ms),
            None => AuthStep::Load { then: Then::Serve },
        }
    }

    /// Starts a request for tokens other than those of the rejected access token.
    pub fn force_refresh<E>(&self, rejected_access: &str) -> (r: AuthStep<E>)
        ensures
            r@ == (Next::<E>::Lock {
                request: Goal::Refresh { force: true, rejected: Some(rejected_access@) },
            }),
    {
        AuthStep::Lock {
            request: RefreshRequest {
                force: true,
                rejected_access: Some(rejected_access.to_owned()),
            },
        }
    }

    /// Goes on under the refresh lock. The tokens are reloaded from the durable store, since
    /// another request, or someone outside, may have rotated them while this one waited.
    pub fn locked<E>(&self, request: RefreshRequest, now_ms: u64) -> (r: AuthStep<E>)
        requires
            self@.test_auth is Some ==> clock_fits(self@, request@, now_ms),
        ensures
            r@ == reload::<E>(self@, request@, now_ms),
    {
        let then = Then::Refresh { request };
        match &self.test_auth {
            Some(auth) => self.proceed(then, auth.clone(), now_ms),
            None => AuthStep::Load { then },
        }
    }

    /// Goes on with a read of the durable store.
    pub fn loaded<E>(
        &mut self,
        then: Then,
        outcome: Result<Option<StoredAuth>, E>,
        now_ms: u64,
    ) -> (r: AuthStep<E>)
        requires
            outcome matches Ok(Some(_)) ==> clock_fits(old(self)@, then@, now_ms),
        ensures
            (final(self)@, r@) == after_load(old(self)@, then@, outcome, now_ms),
    {
        match outcome {
            Ok(Some(auth)) => {
                self.cache_store(auth.clone(), now_ms);
                self.proceed(then, auth, now_ms)
            },
            Ok(None) => {
                self.cache_clear();
                let error = match then {
                    Then::Serve => AuthError::NotLoggedIn,
                    Then::Refresh { .. } => AuthError::NotAuthenticated,
                };
                AuthStep::Done { result: Err(error) }
            },
            Err(error) => AuthStep::Done { result: Err(AuthError::Outside { error }) },
        }
    }

    /// Goes on with the status of a response, or with the reason for which there is none.
    pub fn responded<E>(&self, current: StoredAuth, outcome: Result<u16, String>) -> (r: AuthStep<
        E,
    >)
        ensures
            r@ == after_response::<E>(current@, outcome),
    {
        match outcome {
            Ok(status) => if status == 401 || status == 403 {
                AuthStep::LoadLatest { current }
            } else if 200 <= status && status <= 299 {
                AuthStep::ReadTokens { current }
            } else {
                AuthStep::Done { result: Err(AuthError::RefreshFailed { status }) }
            },
            Err(reason) => AuthStep::Done { result: Err(AuthError::Network { reason }) },
        }
    }

    /// Goes on with a read of the durable store after the tokens were rejected.
    pub fn latest_loaded<E>(
        &mut self,
        current: StoredAuth,
        outcome: Result<Option<StoredAuth>, E>,
        now_ms: u64,
    ) -> (r: AuthStep<E>)
        ensures
            (final(self)@, r@) == after_latest(old(self)@, current@, outcome, now_ms),
    {
        match outcome {
            Ok(Some(latest)) => if !latest.same_as(&current) {
                self.cache_store(latest.clone(), now_ms);
                AuthStep::Done { result: Ok(latest) }
            } else {
                AuthStep::Clear
            },
            Ok(None) => AuthStep::Clear,
            Err(error) => AuthStep::Done { result: Err(AuthError::Outside { error }) },
        }
    }

    /// Goes on once the durable store is cleared.
    pub fn cleared<E>(&mut self, outcome: Result<(), E>) -> (r: AuthStep<E>)
        ensures
            (final(self)@, r@) == after_clear(old(self)@, outcome),
    {
        match outcome {
            Ok(_) => {
                self.cache_clear();
                AuthStep::ReadErrorText
            },
            Err(error) => AuthStep::Done { result: Err(AuthError::Outside { error }) },
        }
    }

    /// Goes on with the text of a response that rejected the tokens.
    pub fn error_text_read<E>(&self, outcome: Option<String>) -> (r: AuthStep<E>)
        ensures
            r@ == after_error_text::<E>(outcome),
    {
        let reason = match outcome {
            Some(reason) => reason,
            None => "Token refresh unauthorized".to_owned(),
        };
        AuthStep::Done { result: Err(AuthError::Unauthorized { reason }) }
    }

    /// Goes on with the tokens in a response and the account that they name.
    pub fn tokens_read<E>(
        &self,
        current: StoredAuth,
        outcome: Result<(TokenResponse, Option<String>), TokenFailure<E>>,
        now_ms: u64,
    ) -> (r: AuthStep<E>)
        requires
            outcome matches Ok(granted) ==> expiry_fits(granted.0, now_ms),
        ensures
            r@ == after_tokens(current@, outcome, now_ms),
    {
        match outcome {
            Ok((tokens, account_id)) => {
                let account = match account_id {
                    Some(id) => Some(id),
                    None => current.account_id,
                };
                AuthStep::Save { auth: grant(&tokens, account, now_ms) }
            },
            Err(TokenFailure::Unreadable { reason }) => AuthStep::Done {
                result: Err(AuthError::BadTokenResponse { reason }),
            },
            Err(TokenFailure::Invalid { error }) => AuthStep::Done {
                result: Err(AuthError::Outside { error }),
            },
        }
    }

    /// Starts to keep the tokens of a login, given whether they are valid and the account that
    /// they name.
    pub fn persist_initial_tokens<E>(
        &self,
        tokens: &TokenResponse,
        validity: Result<(), E>,
        account_id: Option<String>,
        now_ms: u64,
    ) -> (r: AuthStep<E>)
        requires
            validity is Ok ==> expiry_fits(*tokens, now_ms),
        ensures
            r@ == (match validity {
                Ok(_) => Next::Save {
                    auth: granted(*tokens, text::optional_text(account_id), now_ms),
                },
                Err(error) => Next::<E>::Done { result: Err(Failure::Outside { error }) },
            }),
    {
        match validity {
            Ok(_) => AuthStep::Save { auth: grant(tokens, account_id, now_ms) },
            Err(error) => AuthStep::Done { result: Err(AuthError::Outside { error }) },
        }
    }

    /// Goes on once the tokens are saved.
    pub fn saved<E>(&mut self, auth: StoredAuth, outcome: Result<(), E>, now_ms: u64) -> (r:
        AuthStep<E>)
        ensures
            (final(self)@, r@) == after_save(old(self)@, auth@, outcome, now_ms),
    {
        match outcome {
            Ok(_) => {
                self.cache_store(auth.clone(), now_ms);
                AuthStep::Done { result: Ok(auth) }
            },
            Err(error) => AuthStep::Done { result: Err(AuthError::Outside { error }) },
        }
    }
}

} // verus!
