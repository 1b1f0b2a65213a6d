//! What the server keeps between requests, who may call it, and the routes.
use vstd::prelude::*;

use crate::auth::{find_valid_token_at, secret_hash, verify_secret, ClientToken};
use crate::cache::{ChannelCache, EpgCache};
use crate::config::{ProviderConfig, ProxyConfig};
use crate::pairing::{PairingError, PairingStore};
use crate::pairs::{assoc_get, lookup, pairs_view};
use crate::portal::LoginSession;
use crate::server::http::{error_body, json_error, response, response_spec, Request};
use crate::text::{chars_of, has_prefix, lit, seq_equal, slice_vec, starts_with, string_of};

verus! {

/// A login kept for the provider account it was made with.
#[derive(Debug)]
pub struct CachedCtcSession {
    pub provider: ProviderConfig,
    pub session: LoginSession,
}

/// The server's state: where the configuration lives, the configuration,
/// the caches, the portal login and the pairing sessions.
#[derive(Debug)]
pub struct AppState {
    pub config_path: String,
    pub channel_number_overrides_path: Option<String>,
    pub config: ProxyConfig,
    pub cache: ChannelCache,
    pub epg_cache: EpgCache,
    pub ctc_session: Option<CachedCtcSession>,
    pub pairing: PairingStore,
}

/// An error response.
pub open spec fn error_response(status: u16, code: Seq<char>, message: Seq<char>) -> Seq<char> {
    response_spec(status, "application/json"@, error_body(code, message))
}

/// The error response for a refused pairing request.
pub fn pairing_error(error: PairingError) -> (r: String)
    ensures
        r@ == error_response(error.status, error.code@, error.message@),
{
    json_error(error.status, error.code, error.message)
}

/// The value of a request header, by its lower-case name.
pub open spec fn header_value(req: Request, name: Seq<char>) -> Option<Seq<char>> {
    assoc_get(pairs_view(req.headers@), name)
}

/// The value of a query parameter.
pub open spec fn query_value(req: Request, name: Seq<char>) -> Option<Seq<char>> {
    assoc_get(pairs_view(req.query@), name)
}

/// The request carries the admin password whose hash is configured.
pub open spec fn is_admin(req: Request, config: ProxyConfig) -> bool {
    match header_value(req, "x-admin-password"@) {
        Some(p) => secret_hash(p) == config.admin_password_hash@,
        None => false,
    }
}

/// The raw bearer token of the request, if it has one.
pub open spec fn bearer_token(req: Request) -> Option<Seq<char>> {
    match header_value(req, "authorization"@) {
        Some(h) => if starts_with(h, "Bearer "@) {
            Some(h.skip("Bearer "@.len() as int))
        } else {
            None
        },
        None => None,
    }
}

/// The token lets `raw` in: it is enabled and holds the hash of `raw`.
pub open spec fn admits(t: ClientToken, raw: Seq<char>) -> bool {
    t.enabled && t.hash@ == secret_hash(raw)
}

/// `i` is the first token that lets `raw` in.
pub open spec fn first_admitting(tokens: Seq<ClientToken>, raw: Seq<char>, i: int) -> bool {
    &&& 0 <= i < tokens.len()
    &&& admits(tokens[i], raw)
    &&& forall|j: int| 0 <= j < i ==> !admits(#[trigger] tokens[j], raw)
}

/// The first enabled token whose hash matches `raw`.
pub open spec fn matching_token(tokens: Seq<ClientToken>, raw: Seq<char>) -> Option<int> {
    if exists|i: int| 0 <= i < tokens.len() && admits(#[trigger] tokens[i], raw) {
        Some(choose|i: int| first_admitting(tokens, raw, i))
    } else {
        None
    }
}

/// Some token lets `raw` in at `k` or before, so a first one does.
proof fn lemma_first_admitting_exists(tokens: Seq<ClientToken>, raw: Seq<char>, k: int)
    requires
        0 <= k < tokens.len(),
        admits(tokens[k], raw),
    ensures
        exists|i: int| first_admitting(tokens, raw, i),
    decreases k,
{
    if exists|j: int| 0 <= j < k && admits(#[trigger] tokens[j], raw) {
        let j = choose|j: int| 0 <= j < k && admits(#[trigger] tokens[j], raw);
        lemma_first_admitting_exists(tokens, raw, j);
    } else {
        assert(first_admitting(tokens, raw, k));
    }
}

/// `matching_token` is the first token that lets `raw` in.
pub proof fn lemma_matching_token(tokens: Seq<ClientToken>, raw: Seq<char>)
    ensures
        matching_token(tokens, raw) matches Some(i) ==> first_admitting(tokens, raw, i),
        matching_token(tokens, raw) is None ==> forall|j: int|
            0 <= j < tokens.len() ==> !admits(#[trigger] tokens[j], raw),
        forall|i: int| first_admitting(tokens, raw, i) ==> matching_token(tokens, raw) == Some(i),
{
    if exists|i: int| 0 <= i < tokens.len() && admits(#[trigger] tokens[i], raw) {
        let k = choose|i: int| 0 <= i < tokens.len() && admits(#[trigger] tokens[i], raw);
        lemma_first_admitting_exists(tokens, raw, k);
        let c = choose|i: int| first_admitting(tokens, raw, i);
        assert forall|i: int| first_admitting(tokens, raw, i) implies c == i by {
            if c < i {
                assert(!admits(tokens[c], raw));
            } else if i < c {
                assert(!admits(tokens[i], raw));
            }
        }
    }
}

pub open spec fn admin_unauthorized() -> Seq<char> {
    error_response(401, "admin_unauthorized"@, "admin password required"@)
}

/// The route a request takes.
#[derive(Debug, Clone, Copy, PartialEq, Eq)]
pub enum Route {
    Health,
    AdminPage,
    AdminStatus,
    AdminConfigGet,
    AdminTokensGet,
    AdminConfigUpdate,
    AdminCreateToken,
    AdminDeleteToken,
    AdminPairingSessions,
    AdminPairingApprove,
    AdminPairingReject,
    PairingCreate,
    Channels,
    EpgDay,
    PairingPoll,
    NotFound,
}

pub open spec fn route_spec(method: Seq<char>, path: Seq<char>) -> Route {
    if method == "GET"@ && path == "/health"@ {
        Route::Health
    } else if method == "GET"@ && path == "/admin"@ {
        Route::AdminPage
    } else if method == "GET"@ && path == "/admin/api/v1/status"@ {
        Route::AdminStatus
    } else if method == "GET"@ && path == "/admin/api/v1/config"@ {
        Route::AdminConfigGet
    } else if method == "GET"@ && path == "/admin/api/v1/tokens"@ {
        Route::AdminTokensGet
    } else if method == "POST"@ && path == "/admin/config"@ {
        Route::AdminConfigUpdate
    } else if method == "POST"@ && path == "/admin/tokens"@ {
        Route::AdminCreateToken
    } else if method == "DELETE"@ && path == "/admin/tokens"@ {
        Route::AdminDeleteToken
    } else if method == "GET"@ && path == "/admin/api/v1/pairing/sessions"@ {
        Route::AdminPairingSessions
    } else if method == "POST"@ && path == "/admin/api/v1/pairing/approve"@ {
        Route::AdminPairingApprove
    } else if method == "POST"@ && path == "/admin/api/v1/pairing/reject"@ {
        Route::AdminPairingReject
    } else if method == "POST"@ && path == "/api/v1/pairing/sessions"@ {
        Route::PairingCreate
    } else if method == "GET"@ && path == "/api/v1/channels"@ {
        Route::Channels
    } else if method == "GET"@ && path == "/api/v1/epg/day"@ {
        Route::EpgDay
    } else if method == "GET"@ && starts_with(path, "/api/v1/pairing/sessions/"@) {
        Route::PairingPoll
    } else {
        Route::NotFound
    }
}

fn is(a: &[char], b: &str) -> (r: bool)
    ensures
        r == (a@ == b@),
{
    seq_equal(a, lit(b).as_slice())
}

/// The route for a method and path.
pub fn route(method: &str, path: &str) -> (r: Route)
    ensures
        r == route_spec(method@, path@),
{
    let m = chars_of(method);
    let p = chars_of(path);
    let get = is(m.as_slice(), "GET");
    let post = is(m.as_slice(), "POST");
    if get && is(p.as_slice(), "/health") {
        Route::Health
    } else if get && is(p.as_slice(), "/admin") {
        Route::AdminPage
    } else if get && is(p.as_slice(), "/admin/api/v1/status") {
        Route::AdminStatus
    } else if get && is(p.as_slice(), "/admin/api/v1/config") {
        Route::AdminConfigGet
    } else if get && is(p.as_slice(), "/admin/api/v1/tokens") {
        Route::AdminTokensGet
    } else if post && is(p.as_slice(), "/admin/config") {
        Route::AdminConfigUpdate
    } else if post && is(p.as_slice(), "/admin/tokens") {
        Route::AdminCreateToken
    } else if is(m.as_slice(), "DELETE") && is(p.as_slice(), "/admin/tokens") {
        Route::AdminDeleteToken
    } else if get && is(p.as_slice(), "/admin/api/v1/pairing/sessions") {
        Route::AdminPairingSessions
    } else if post && is(p.as_slice(), "/admin/api/v1/pairing/approve") {
        Route::AdminPairingApprove
    } else if post && is(p.as_slice(), "/admin/api/v1/pairing/reject") {
        Route::AdminPairingReject
    } else if post && is(p.as_slice(), "/api/v1/pairing/sessions") {
        Route::PairingCreate
    } else if get && is(p.as_slice(), "/api/v1/channels") {
        Route::Channels
    } else if get && is(p.as_slice(), "/api/v1/epg/day") {
        Route::EpgDay
    } else if get && has_prefix(p.as_slice(), lit("/api/v1/pairing/sessions/").as_slice()) {
        Route::PairingPoll
    } else {
        Route::NotFound
    }
}

/// `GET /health`: `{"ok":true}`.
pub fn health() -> (r: String)
    ensures
        r@ == response_spec(200, "application/json"@, "{\"ok\":true}"@),
{
    crate::server::http::ok_response()
}

/// `GET /admin`: the admin page.
pub fn page(html: String) -> (r: String)
    ensures
        r@ == response_spec(200, "text/html; charset=utf-8"@, html@),
{
    response(200, "text/html; charset=utf-8", html)
}

/// `404`: no such route.
pub fn not_found() -> (r: String)
    ensures
        r@ == error_response(404, "not_found"@, "not found"@),
{
    json_error(404, "not_found", "not found")
}

/// The error response for a request that cannot be read.
pub fn bad_request(message: &str) -> (r: String)
    ensures
        r@ == error_response(400, "bad_request"@, message@),
{
    json_error(400, "bad_request", message)
}

impl AppState {
    pub fn new(
        config_path: String,
        channel_number_overrides_path: Option<String>,
        config: ProxyConfig,
    ) -> (r: Self)
        ensures
            r.config_path == config_path,
            r.channel_number_overrides_path == channel_number_overrides_path,
            r.config == config,
            r.cache@.channels.len() == 0,
            r.epg_cache@ == Map::<(Seq<char>, i32), (Seq<crate::cache::Program>, u64)>::empty(),
            r.ctc_session is None,
            r.pairing@ == Seq::<crate::pairing::SessionView>::empty(),
    {
        AppState {
            config_path,
            channel_number_overrides_path,
            config,
            cache: ChannelCache::default(),
            epg_cache: EpgCache::default(),
            ctc_session: None,
            pairing: PairingStore::default(),
        }
    }

    /// Whether the request carries the admin password.
    pub fn authorized_admin(&self, request: &Request) -> (r: bool)
        ensures
            r == is_admin(*request, self.config),
    {
        match lookup(&request.headers, "x-admin-password") {
            Some(value) => verify_secret(value.as_str(), self.config.admin_password_hash.as_str()),
            None => false,
        }
    }

    /// The name of the client whose bearer token the request carries; the
    /// token's last-seen time becomes `now`. Nothing else changes.
    pub fn authorized_client_name(&mut self, request: &Request, now: u64) -> (r: Option<String>)
        ensures
            final(self).config_path == old(self).config_path,
            final(self).channel_number_overrides_path == old(self).channel_number_overrides_path,
            final(self).cache == old(self).cache,
            final(self).epg_cache == old(self).epg_cache,
            final(self).ctc_session == old(self).ctc_session,
            final(self).pairing == old(self).pairing,
            final(self).config == (ProxyConfig { tokens: final(self).config.tokens, ..old(self).config }),
            match bearer_token(*request) {
                None => r is None && final(self).config.tokens@ == old(self).config.tokens@,
                Some(raw) => match matching_token(old(self).config.tokens@, raw) {
                    None => r is None && final(self).config.tokens@ == old(self).config.tokens@,
                    Some(i) => r matches Some(name) && name@ == old(self).config.tokens@[i].name@
                        && final(self).config.tokens@ == old(self).config.tokens@.update(
                        i,
                        ClientToken { last_seen_at: Some(now), ..old(self).config.tokens@[i] },
                    ),
                },
            },
    {
        let header = match lookup(&request.headers, "authorization") {
            Some(h) => chars_of(h.as_str()),
            None => return None,
        };
        let prefix = lit("Bearer ");
        proof {
            reveal_strlit("Bearer ");
        }
        if !has_prefix(header.as_slice(), prefix.as_slice()) {
            return None;
        }
        let raw = string_of(slice_vec(header.as_slice(), 7, header.len()).as_slice());
        assert(raw@ =~= header@.skip(7));
        let ghost tokens = self.config.tokens@;
        match find_valid_token_at(self.config.tokens.as_mut_slice(), raw.as_str(), now) {
            Some(i) => {
                proof {
                    assert(first_admitting(tokens, raw@, i as int));
                    lemma_matching_token(tokens, raw@);
                }
                Some(self.config.tokens[i].name.clone())
            },
            None => {
                proof {
                    lemma_matching_token(tokens, raw@);
                }
                None
            },
        }
    }

    /// The login kept for `provider`, if one is.
    pub fn cached_session(&self, provider: &ProviderConfig) -> (r: Option<LoginSession>)
        ensures
            r == kept_session(self.ctc_session, *provider),
    {
        match &self.ctc_session {
            Some(entry) => {
                if provider_eq(&entry.provider, provider) {
                    Some(entry.session.clone())
                } else {
                    None
                }
            },
            None => None,
        }
    }

    /// Keeps a login made for `provider`.
    pub fn store_session(&mut self, provider: &ProviderConfig, session: LoginSession)
        ensures
            final(self).ctc_session == Some(CachedCtcSession { provider: *provider, session }),
            final(self).config == old(self).config,
            final(self).cache == old(self).cache,
            final(self).epg_cache == old(self).epg_cache,
            final(self).pairing == old(self).pairing,
    {
        self.ctc_session = Some(CachedCtcSession { provider: provider.clone(), session });
    }

    /// Forgets the login kept for `provider`; one kept for another provider
    /// account stays.
    pub fn clear_ctc_session(&mut self, provider: &ProviderConfig)
        ensures
            final(self).ctc_session == session_cleared(old(self).ctc_session, *provider),
            final(self).config == old(self).config,
            final(self).cache == old(self).cache,
            final(self).epg_cache == old(self).epg_cache,
            final(self).pairing == old(self).pairing,
    {
        let matches = match &self.ctc_session {
            Some(entry) => provider_eq(&entry.provider, provider),
            None => false,
        };
        if matches {
            self.ctc_session = None;
        }
    }
}

/// Which attempt a fetch with a portal login is.
#[derive(Debug, Clone, Copy, PartialEq, Eq)]
pub enum FetchAttempt {
    /// The first fetch, with the kept login or a new one.
    First,
    /// The one retry, with a login made after the first fetch failed.
    Retry,
}

/// What follows a fetch with a portal login.
#[derive(Debug)]
pub enum AfterFetch<T> {
    /// This is the answer.
    Done(Result<T, String>),
    /// Log in again and fetch once more.
    Relogin,
}

impl AppState {
    /// After a fetch for `provider`: a first fetch that failed forgets the
    /// kept login and asks for a new login and one more fetch; a retry, or
    /// a fetch that succeeded, is the answer.
    pub fn after_fetch<T>(
        &mut self,
        provider: &ProviderConfig,
        attempt: FetchAttempt,
        outcome: Result<T, String>,
    ) -> (r: AfterFetch<T>)
        ensures
            final(self).config == old(self).config,
            final(self).cache == old(self).cache,
            final(self).epg_cache == old(self).epg_cache,
            final(self).pairing == old(self).pairing,
            (attempt == FetchAttempt::First && outcome is Err) ==> (r is Relogin
                && final(self).ctc_session == session_cleared(old(self).ctc_session, *provider)),
            !(attempt == FetchAttempt::First && outcome is Err) ==> (r == AfterFetch::Done(outcome)
                && final(self).ctc_session == old(self).ctc_session),
    {
        match outcome {
            Err(e) => match attempt {
                FetchAttempt::First => {
                    self.clear_ctc_session(provider);
                    AfterFetch::Relogin
                },
                FetchAttempt::Retry => AfterFetch::Done(Err(e)),
            },
            Ok(v) => AfterFetch::Done(Ok(v)),
        }
    }
}

/// The login kept for `provider`: the one stored for that same account.
pub open spec fn kept_session(kept: Option<CachedCtcSession>, provider: ProviderConfig) -> Option<
    LoginSession,
> {
    match kept {
        Some(c) if provider_view(c.provider) == provider_view(provider) => Some(c.session),
        _ => None,
    }
}

/// The kept login once the one for `provider` is forgotten.
pub open spec fn session_cleared(kept: Option<CachedCtcSession>, provider: ProviderConfig) -> Option<
    CachedCtcSession,
> {
    match kept {
        Some(c) if provider_view(c.provider) == provider_view(provider) => None,
        _ => kept,
    }
}

/// A login stored for an account is what is found for that account, and
/// nothing is found for another; once the login of an account is
/// forgotten nothing is found for it, while forgetting another account
/// changes nothing.
pub proof fn law_session_cache_read_after_write(
    kept: Option<CachedCtcSession>,
    p: ProviderConfig,
    q: ProviderConfig,
    session: LoginSession,
)
    ensures
        kept_session(Some(CachedCtcSession { provider: p, session }), p) == Some(session),
        provider_view(q) != provider_view(p) ==> kept_session(
            Some(CachedCtcSession { provider: p, session }),
            q,
        ) is None,
        kept_session(session_cleared(kept, p), p) is None,
        provider_view(q) != provider_view(p) ==> kept_session(session_cleared(kept, p), q)
            == kept_session(kept, q),
{
}

fn str_eq(a: &String, b: &String) -> (r: bool)
    ensures
        r == (a@ == b@),
{
    seq_equal(chars_of(a.as_str()).as_slice(), chars_of(b.as_str()).as_slice())
}

/// The fields of a provider account.
pub open spec fn provider_view(p: ProviderConfig) -> (Seq<char>, Seq<char>, Seq<char>, Seq<char>, Seq<char>, Seq<char>) {
    (p.user_id@, p.password@, p.stb_id@, p.local_ip@, p.local_mac@, p.auth_server_url@)
}

/// Whether two provider accounts are the same in every field.
pub fn provider_eq(a: &ProviderConfig, b: &ProviderConfig) -> (r: bool)
    ensures
        r == (provider_view(*a) == provider_view(*b)),
{
    let r = str_eq(&a.user_id, &b.user_id) && str_eq(&a.password, &b.password) && str_eq(
        &a.stb_id,
        &b.stb_id,
    ) && str_eq(&a.local_ip, &b.local_ip) && str_eq(&a.local_mac, &b.local_mac) && str_eq(
        &a.auth_server_url,
        &b.auth_server_url,
    );
    r
}

} // verus!
