//! The admin API: status, configuration, client tokens and pairing decisions.
use vstd::prelude::*;

use crate::auth::{generate_token, generate_token_id, hash_secret, secret_hash, token_spec, ClientToken};
use crate::cache::{channel_response_spec, ChannelCache};
use crate::config::{ProviderConfig, ProxyConfig};
use crate::hex::hex_of;
use crate::pairing::{
    candidate_spec, decision_index, digits_only, index_of_id, is_error, opt_ref_view, pending_entries,
    prune_spec, with_status, ApprovePairingRequest, PairingApprovalCandidate,
    PairingDecisionResponse, PendingPairingSessionsResponse, RejectPairingRequest,
    StoredPairingStatus,
};
use crate::pairs::{assoc_get, find_key, key_index, lemma_key_index, lookup, pairs_view};
use crate::server::http::{
    error_body, form_decodable, form_spec, json_error, json_quote, json_response, ok_response,
    parse_form, response_spec, Request,
};
use crate::server::state::{
    admin_unauthorized, admits, error_response, first_admitting, is_admin, lemma_matching_token,
    matching_token, pairing_error, provider_view, query_value, AppState,
};
use crate::stream::{opt_view, StreamProxyConfig};
use crate::text::{
    chars_of, dec, dec_chars, extend_chars, has_prefix, lit, parse_unsigned, parse_unsigned_spec,
    seq_equal, starts_with, string_of, trim, trim_chars, trim_str,
};

verus! {

broadcast use vstd::seq_lib::group_to_multiset_ensures;

// ---------------------------------------------------------------------------
// Answers
// ---------------------------------------------------------------------------

#[derive(Debug)]
pub struct AdminChannelCacheStatus {
    pub cached_at: u64,
    pub ttl_seconds: u64,
    pub channel_count: usize,
}

#[derive(Debug)]
pub struct AdminStatusResponse {
    pub listen: String,
    pub backend_mode: String,
    pub provider_configured: bool,
    pub backend_configured: bool,
    pub udpxy_configured: bool,
    pub token_count: usize,
    pub pending_pairing_count: usize,
    pub channel_cache: Option<AdminChannelCacheStatus>,
}

/// A provider account as the admin sees it: the password only as whether
/// one is set.
#[derive(Debug)]
pub struct AdminProviderConfig {
    pub user_id: String,
    pub password_configured: bool,
    pub stb_id: String,
    pub local_ip: String,
    pub local_mac: String,
    pub auth_server_url: String,
}

#[derive(Debug)]
pub struct AdminConfigResponse {
    pub listen: String,
    pub channel_cache_ttl_seconds: u64,
    pub epg_cache_ttl_seconds: u64,
    pub backend_channels_url: Option<String>,
    pub provider: Option<AdminProviderConfig>,
    pub stream: StreamProxyConfig,
}

/// A client token as the admin sees it: without its hash.
#[derive(Debug)]
pub struct AdminTokenView {
    pub name: String,
    pub created_at: u64,
    pub last_seen_at: Option<u64>,
    pub enabled: bool,
}

#[derive(Debug)]
pub struct AdminTokensResponse {
    pub data: Vec<AdminTokenView>,
}

impl AdminProviderConfig {
    pub fn from_provider(provider: &ProviderConfig) -> (r: Self)
        ensures
            r.user_id@ == provider.user_id@,
            r.password_configured == (provider.password@.len() > 0),
            r.stb_id@ == provider.stb_id@,
            r.local_ip@ == provider.local_ip@,
            r.local_mac@ == provider.local_mac@,
            r.auth_server_url@ == provider.auth_server_url@,
    {
        AdminProviderConfig {
            user_id: provider.user_id.clone(),
            password_configured: provider.password.as_str().unicode_len() > 0,
            stb_id: provider.stb_id.clone(),
            local_ip: provider.local_ip.clone(),
            local_mac: provider.local_mac.clone(),
            auth_server_url: provider.auth_server_url.clone(),
        }
    }
}

/// The backend the channel list comes from.
pub open spec fn backend_mode_spec(config: ProxyConfig) -> Seq<char> {
    if config.provider is Some {
        "provider"@
    } else if config.backend_channels_url is Some {
        "http_backend"@
    } else {
        "not_configured"@
    }
}

// ---------------------------------------------------------------------------
// TTLs
// ---------------------------------------------------------------------------

/// A cache TTL from a form field: a positive whole number of seconds.
pub open spec fn ttl_spec(value: Seq<char>) -> Result<u64, Seq<char>> {
    match parse_unsigned_spec(trim(value), 0xffff_ffff_ffff_ffff) {
        None => Err("TTL must be a positive integer"@),
        Some(v) => if v == 0 {
            Err("TTL must be greater than zero"@)
        } else {
            Ok(v as u64)
        },
    }
}

pub fn parse_ttl(value: &str) -> (r: Result<u64, &'static str>)
    ensures
        match ttl_spec(value@) {
            Ok(v) => r == Ok::<u64, &'static str>(v),
            Err(m) => r matches Err(x) && x@ == m,
        },
{
    let t = trim_str(value);
    match parse_unsigned(t.as_slice(), 0xffff_ffff_ffff_ffff) {
        None => Err("TTL must be a positive integer"),
        Some(v) => if v == 0 {
            Err("TTL must be greater than zero")
        } else {
            Ok(v)
        },
    }
}

// ---------------------------------------------------------------------------
// Configuration updates
// ---------------------------------------------------------------------------

/// A trimmed form value, `None` when blank.
pub open spec fn blank_to_none(v: Seq<char>) -> Option<Seq<char>> {
    if trim(v).len() == 0 {
        None
    } else {
        Some(trim(v))
    }
}

/// The form has a `provider_...` field.
pub open spec fn has_provider_field(form: Seq<(Seq<char>, Seq<char>)>) -> bool {
    exists|i: int| 0 <= i < form.len() && starts_with(form[i].0, "provider_"@)
}

/// The form has a `provider_...` field that is not blank.
pub open spec fn has_provider_value(form: Seq<(Seq<char>, Seq<char>)>) -> bool {
    exists|i: int|
        0 <= i < form.len() && starts_with(form[i].0, "provider_"@) && trim(form[i].1).len() > 0
}

/// A provider field after the update: the trimmed form value when the form
/// has the field, else what it was.
pub open spec fn updated_field(form: Seq<(Seq<char>, Seq<char>)>, key: Seq<char>, base: Seq<char>) -> Seq<char> {
    match assoc_get(form, key) {
        Some(v) => trim(v),
        None => base,
    }
}

/// The provider password after the update: a non-empty form value as it
/// is, else what it was.
pub open spec fn updated_password(form: Seq<(Seq<char>, Seq<char>)>, base: Seq<char>) -> Seq<char> {
    match assoc_get(form, "provider_password"@) {
        Some(v) => if v.len() > 0 {
            v
        } else {
            base
        },
        None => base,
    }
}

pub open spec fn empty_provider() -> (Seq<char>, Seq<char>, Seq<char>, Seq<char>, Seq<char>, Seq<char>) {
    (seq![], seq![], seq![], seq![], seq![], seq![])
}

/// The provider account after the update.
pub open spec fn updated_provider(
    form: Seq<(Seq<char>, Seq<char>)>,
    old: Option<ProviderConfig>,
) -> Option<(Seq<char>, Seq<char>, Seq<char>, Seq<char>, Seq<char>, Seq<char>)> {
    let base = match old {
        Some(p) => provider_view(p),
        None => empty_provider(),
    };
    if !has_provider_field(form) || (old is None && !has_provider_value(form)) {
        match old {
            Some(p) => Some(provider_view(p)),
            None => None,
        }
    } else {
        Some(
            (
                updated_field(form, "provider_user_id"@, base.0),
                updated_password(form, base.1),
                updated_field(form, "provider_stb_id"@, base.2),
                updated_field(form, "provider_local_ip"@, base.3),
                updated_field(form, "provider_local_mac"@, base.4),
                updated_field(form, "provider_auth_server_url"@, base.5),
            ),
        )
    }
}

pub open spec fn opt_provider_view(p: Option<ProviderConfig>) -> Option<(Seq<char>, Seq<char>, Seq<char>, Seq<char>, Seq<char>, Seq<char>)> {
    match p {
        Some(x) => Some(provider_view(x)),
        None => None,
    }
}

/// Where a field set by the form goes; the others keep their value.
pub open spec fn updated_opt(form: Seq<(Seq<char>, Seq<char>)>, key: Seq<char>, old: Option<String>) -> Option<Seq<char>> {
    match assoc_get(form, key) {
        Some(v) => blank_to_none(v),
        None => opt_view(old),
    }
}

/// The TTL field of the form, read.
pub open spec fn ttl_field(form: Seq<(Seq<char>, Seq<char>)>, key: Seq<char>) -> Option<Result<u64, Seq<char>>> {
    match assoc_get(form, key) {
        Some(v) => Some(ttl_spec(v)),
        None => None,
    }
}

/// Only the configuration may change, and in it only what the form sets.
pub open spec fn rest_unchanged(a: AppState, b: AppState) -> bool {
    &&& b.config_path == a.config_path
    &&& b.channel_number_overrides_path == a.channel_number_overrides_path
    &&& b.cache == a.cache
    &&& b.epg_cache == a.epg_cache
    &&& b.ctc_session == a.ctc_session
    &&& b.pairing == a.pairing
    &&& b.config.listen == a.config.listen
    &&& b.config.admin_password_hash == a.config.admin_password_hash
    &&& b.config.pairing == a.config.pairing
    &&& b.config.tokens == a.config.tokens
}

fn opt_blank_to_none(v: &String) -> (r: Option<String>)
    ensures
        opt_view(r) == blank_to_none(v@),
{
    let t = trim_str(v.as_str());
    if t.len() == 0 {
        None
    } else {
        Some(string_of(t.as_slice()))
    }
}

fn form_has_provider(form: &Vec<(String, String)>, need_value: bool) -> (r: bool)
    ensures
        r == if need_value {
            has_provider_value(pairs_view(form@))
        } else {
            has_provider_field(pairs_view(form@))
        },
{
    let ghost f = pairs_view(form@);
    let prefix = lit("provider_");
    let mut i: usize = 0;
    while i < form.len()
        invariant
            f == pairs_view(form@),
            prefix@ == "provider_"@,
            i <= form@.len(),
            forall|j: int|
                0 <= j < i ==> !(starts_with(#[trigger] f[j].0, "provider_"@) && (need_value ==> trim(
                    f[j].1,
                ).len() > 0)),
        decreases form@.len() - i,
    {
        let key = chars_of(form[i].0.as_str());
        if has_prefix(key.as_slice(), prefix.as_slice()) {
            if !need_value || trim_str(form[i].1.as_str()).len() > 0 {
                assert(starts_with(f[i as int].0, "provider_"@));
                return true;
            }
        }
        i = i + 1;
    }
    false
}

fn field_or(form: &Vec<(String, String)>, key: &str, base: &String) -> (r: String)
    ensures
        r@ == updated_field(pairs_view(form@), key@, base@),
{
    match lookup(form, key) {
        Some(v) => string_of(trim_str(v.as_str()).as_slice()),
        None => base.clone(),
    }
}

fn password_or(form: &Vec<(String, String)>, base: &String) -> (r: String)
    ensures
        r@ == updated_password(pairs_view(form@), base@),
{
    match lookup(form, "provider_password") {
        Some(v) => if v.as_str().unicode_len() > 0 {
            v
        } else {
            base.clone()
        },
        None => base.clone(),
    }
}

impl AppState {
    /// `GET /admin/api/v1/status`.
    pub fn admin_status(&mut self, request: &Request, now: u64) -> (r: Result<AdminStatusResponse, String>)
        ensures
            !is_admin(*request, old(self).config) ==> (r matches Err(e) && e@ == admin_unauthorized()
                && *final(self) == *old(self)),
            is_admin(*request, old(self).config) ==> (r matches Ok(s) && {
                let cfg = old(self).config;
                &&& s.listen@ == cfg.listen@
                &&& s.backend_mode@ == backend_mode_spec(cfg)
                &&& s.provider_configured == cfg.provider is Some
                &&& s.backend_configured == cfg.backend_channels_url is Some
                &&& s.udpxy_configured == cfg.stream.udpxy_base_url is Some
                &&& s.token_count == cfg.tokens@.len()
                &&& s.pending_pairing_count == pending_entries(final(self).pairing@).len()
                &&& match channel_response_spec(
                    old(self).cache@,
                    cfg.channel_cache_ttl_seconds,
                    false,
                ) {
                    None => s.channel_cache is None,
                    Some((data, meta)) => s.channel_cache matches Some(c) && c.cached_at
                        == meta.cached_at && c.ttl_seconds == meta.ttl_seconds && c.channel_count
                        == data.len(),
                }
                &&& final(self).pairing@ == prune_spec(old(self).pairing@, now)
                &&& final(self).config == old(self).config
                &&& final(self).cache == old(self).cache
            }),
    {
        if !self.authorized_admin(request) {
            return Err(json_error(401, "admin_unauthorized", "admin password required"));
        }
        let backend_mode = if self.config.provider.is_some() {
            String::from_str("provider")
        } else if self.config.backend_channels_url.is_some() {
            String::from_str("http_backend")
        } else {
            String::from_str("not_configured")
        };
        let pending = self.pairing.pending_sessions(now);
        let pending_count = pending.data.len();
        assert(pending_count == crate::pairing::entries_view(pending.data@).len());
        assert(crate::pairing::entries_view(pending.data@).to_multiset().len()
            == pending_entries(self.pairing@).to_multiset().len());
        let channel_cache = match self.cache.response(self.config.channel_cache_ttl_seconds, false) {
            Some(resp) => Some(
                AdminChannelCacheStatus {
                    cached_at: resp.cache.cached_at,
                    ttl_seconds: resp.cache.ttl_seconds,
                    channel_count: resp.data.len(),
                },
            ),
            None => None,
        };
        Ok(
            AdminStatusResponse {
                listen: self.config.listen.clone(),
                backend_mode,
                provider_configured: self.config.provider.is_some(),
                backend_configured: self.config.backend_channels_url.is_some(),
                udpxy_configured: self.config.stream.udpxy_base_url.is_some(),
                token_count: self.config.tokens.len(),
                pending_pairing_count: pending_count,
                channel_cache,
            },
        )
    }
}

impl AppState {
    /// `GET /admin/api/v1/config`: the configuration without secrets.
    pub fn admin_config(&self, request: &Request) -> (r: Result<AdminConfigResponse, String>)
        ensures
            !is_admin(*request, self.config) ==> (r matches Err(e) && e@ == admin_unauthorized()),
            is_admin(*request, self.config) ==> (r matches Ok(c) && {
                &&& c.listen@ == self.config.listen@
                &&& c.channel_cache_ttl_seconds == self.config.channel_cache_ttl_seconds
                &&& c.epg_cache_ttl_seconds == self.config.epg_cache_ttl_seconds
                &&& c.backend_channels_url == self.config.backend_channels_url
                &&& c.stream == self.config.stream
                &&& match self.config.provider {
                    None => c.provider is None,
                    Some(p) => c.provider matches Some(a) && a.user_id@ == p.user_id@
                        && a.password_configured == (p.password@.len() > 0) && a.stb_id@
                        == p.stb_id@ && a.local_ip@ == p.local_ip@ && a.local_mac@ == p.local_mac@
                        && a.auth_server_url@ == p.auth_server_url@,
                }
            }),
    {
        if !self.authorized_admin(request) {
            return Err(json_error(401, "admin_unauthorized", "admin password required"));
        }
        let provider = match &self.config.provider {
            Some(p) => Some(AdminProviderConfig::from_provider(p)),
            None => None,
        };
        Ok(
            AdminConfigResponse {
                listen: self.config.listen.clone(),
                channel_cache_ttl_seconds: self.config.channel_cache_ttl_seconds,
                epg_cache_ttl_seconds: self.config.epg_cache_ttl_seconds,
                backend_channels_url: crate::cache::clone_opt_string(
                    &self.config.backend_channels_url,
                ),
                provider,
                stream: self.config.stream.clone(),
            },
        )
    }

    /// `GET /admin/api/v1/tokens`: the client tokens without their hashes.
    pub fn admin_tokens(&self, request: &Request) -> (r: Result<AdminTokensResponse, String>)
        ensures
            !is_admin(*request, self.config) ==> (r matches Err(e) && e@ == admin_unauthorized()),
            is_admin(*request, self.config) ==> (r matches Ok(t) && t.data@.len()
                == self.config.tokens@.len() && forall|i: int|
                0 <= i < t.data@.len() ==> {
                    let v = #[trigger] t.data@[i];
                    let tok = self.config.tokens@[i];
                    &&& v.name@ == tok.name@
                    &&& v.created_at == tok.created_at
                    &&& v.last_seen_at == tok.last_seen_at
                    &&& v.enabled == tok.enabled
                }),
    {
        if !self.authorized_admin(request) {
            return Err(json_error(401, "admin_unauthorized", "admin password required"));
        }
        let mut data: Vec<AdminTokenView> = Vec::new();
        let mut i: usize = 0;
        while i < self.config.tokens.len()
            invariant
                i <= self.config.tokens@.len(),
                data@.len() == i,
                forall|j: int|
                    0 <= j < i ==> {
                        let v = #[trigger] data@[j];
                        let tok = self.config.tokens@[j];
                        &&& v.name@ == tok.name@
                        &&& v.created_at == tok.created_at
                        &&& v.last_seen_at == tok.last_seen_at
                        &&& v.enabled == tok.enabled
                    },
            decreases self.config.tokens@.len() - i,
        {
            let t = &self.config.tokens[i];
            data.push(
                AdminTokenView {
                    name: t.name.clone(),
                    created_at: t.created_at,
                    last_seen_at: t.last_seen_at,
                    enabled: t.enabled,
                },
            );
            i = i + 1;
        }
        Ok(AdminTokensResponse { data })
    }

    /// `POST /admin/config`: applies the form to the configuration. On
    /// success the caller saves the configuration; a TTL that cannot be
    /// read is refused, leaving the fields before it changed in memory.
    pub fn update_config(&mut self, request: &Request) -> (r: Result<(), String>)
        requires
            form_decodable(request.body@),
        ensures
            !is_admin(*request, old(self).config) ==> (r matches Err(e) && e@ == admin_unauthorized()
                && *final(self) == *old(self)),
            is_admin(*request, old(self).config) ==> {
                let form = form_spec(request.body@);
                let old_cfg = old(self).config;
                let cfg = final(self).config;
                let ch_ttl = ttl_field(form, "channel_cache_ttl_seconds"@);
                let epg_ttl = ttl_field(form, "epg_cache_ttl_seconds"@);
                &&& rest_unchanged(*old(self), *final(self))
                &&& opt_view(cfg.backend_channels_url) == updated_opt(
                    form,
                    "backend_channels_url"@,
                    old_cfg.backend_channels_url,
                )
                &&& opt_view(cfg.stream.udpxy_base_url) == updated_opt(
                    form,
                    "udpxy_base_url"@,
                    old_cfg.stream.udpxy_base_url,
                )
                &&& match ch_ttl {
                    Some(Err(m)) => r matches Err(e) && e@ == error_response(
                        400,
                        "invalid_channel_cache_ttl"@,
                        m,
                    ) && cfg.channel_cache_ttl_seconds == old_cfg.channel_cache_ttl_seconds
                        && cfg.epg_cache_ttl_seconds == old_cfg.epg_cache_ttl_seconds
                        && cfg.provider == old_cfg.provider,
                    _ => {
                        &&& cfg.channel_cache_ttl_seconds == match ch_ttl {
                            Some(Ok(v)) => v,
                            _ => old_cfg.channel_cache_ttl_seconds,
                        }
                        &&& match epg_ttl {
                            Some(Err(m)) => r matches Err(e) && e@ == error_response(
                                400,
                                "invalid_epg_cache_ttl"@,
                                m,
                            ) && cfg.epg_cache_ttl_seconds == old_cfg.epg_cache_ttl_seconds
                                && cfg.provider == old_cfg.provider,
                            _ => {
                                &&& r is Ok
                                &&& cfg.epg_cache_ttl_seconds == match epg_ttl {
                                    Some(Ok(v)) => v,
                                    _ => old_cfg.epg_cache_ttl_seconds,
                                }
                                &&& opt_provider_view(cfg.provider) == updated_provider(
                                    form,
                                    old_cfg.provider,
                                )
                            },
                        }
                    },
                }
            },
    {
        if !self.authorized_admin(request) {
            return Err(json_error(401, "admin_unauthorized", "admin password required"));
        }
        let form = parse_form(request.body.as_str());
        if let Some(v) = lookup(&form, "backend_channels_url") {
            self.config.backend_channels_url = opt_blank_to_none(&v);
        }
        if let Some(v) = lookup(&form, "udpxy_base_url") {
            self.config.stream = StreamProxyConfig { udpxy_base_url: opt_blank_to_none(&v) };
        }
        if let Some(v) = lookup(&form, "channel_cache_ttl_seconds") {
            match parse_ttl(v.as_str()) {
                Ok(value) => {
                    self.config.channel_cache_ttl_seconds = value;
                },
                Err(message) => {
                    return Err(json_error(400, "invalid_channel_cache_ttl", message));
                },
            }
        }
        if let Some(v) = lookup(&form, "epg_cache_ttl_seconds") {
            match parse_ttl(v.as_str()) {
                Ok(value) => {
                    self.config.epg_cache_ttl_seconds = value;
                },
                Err(message) => {
                    return Err(json_error(400, "invalid_epg_cache_ttl", message));
                },
            }
        }
        if form_has_provider(&form, false) {
            let has_value = form_has_provider(&form, true);
            if self.config.provider.is_none() && !has_value {
                return Ok(());
            }
            let base = match &self.config.provider {
                Some(p) => p.clone(),
                None => ProviderConfig {
                    user_id: String::new(),
                    password: String::new(),
                    stb_id: String::new(),
                    local_ip: String::new(),
                    local_mac: String::new(),
                    auth_server_url: String::new(),
                },
            };
            let provider = ProviderConfig {
                user_id: field_or(&form, "provider_user_id", &base.user_id),
                password: password_or(&form, &base.password),
                stb_id: field_or(&form, "provider_stb_id", &base.stb_id),
                local_ip: field_or(&form, "provider_local_ip", &base.local_ip),
                local_mac: field_or(&form, "provider_local_mac", &base.local_mac),
                auth_server_url: field_or(&form, "provider_auth_server_url", &base.auth_server_url),
            };
            self.config.provider = Some(provider);
        }
        Ok(())
    }
}

/// The answer once the configuration has been saved, or not.
pub fn saved_response(saved: Result<(), String>) -> (r: String)
    ensures
        match saved {
            Ok(()) => r@ == response_spec(200, "application/json"@, "{\"ok\":true}"@),
            Err(e) => r@ == error_response(500, "config_save_failed"@, e@),
        },
{
    match saved {
        Ok(()) => ok_response(),
        Err(e) => json_error(500, "config_save_failed", e.as_str()),
    }
}

/// A new client token: its id, name, the hash of the raw token, created
/// now, never seen, enabled.
pub open spec fn new_token_ok(t: ClientToken, id_random: Seq<u8>, name: Seq<char>, raw: Seq<char>, now: u64) -> bool {
    &&& t.id@ == "tok_"@ + hex_of(id_random)
    &&& t.name@ == name
    &&& t.hash@ == secret_hash(raw)
    &&& t.created_at == now
    &&& t.last_seen_at is None
    &&& t.enabled
}

fn new_token(name: &str, raw: &str, id_random: &[u8; 16], now: u64) -> (r: ClientToken)
    ensures
        new_token_ok(r, id_random@, name@, raw@, now),
{
    ClientToken {
        id: generate_token_id(id_random),
        name: String::from_str(name),
        hash: hash_secret(raw),
        created_at: now,
        last_seen_at: None,
        enabled: true,
    }
}

/// Everything but the client tokens stays.
pub open spec fn only_tokens_change(a: AppState, b: AppState) -> bool {
    &&& b.config_path == a.config_path
    &&& b.channel_number_overrides_path == a.channel_number_overrides_path
    &&& b.cache == a.cache
    &&& b.epg_cache == a.epg_cache
    &&& b.ctc_session == a.ctc_session
    &&& b.pairing == a.pairing
    &&& b.config == (ProxyConfig { tokens: b.config.tokens, ..a.config })
}

/// The name a new token is created with.
pub open spec fn token_name_spec(form: Seq<(Seq<char>, Seq<char>)>) -> Seq<char> {
    match assoc_get(form, "name"@) {
        Some(n) => n,
        None => "client"@,
    }
}

/// The name of the tokens to delete, from the query or else the form.
pub open spec fn delete_name_spec(request: Request) -> Option<Seq<char>> {
    match query_value(request, "name"@) {
        Some(n) => Some(n),
        None => assoc_get(form_spec(request.body@), "name"@),
    }
}

/// The tokens not named `name`, in order.
pub open spec fn tokens_without(s: Seq<ClientToken>, name: Seq<char>) -> Seq<ClientToken>
    decreases s.len(),
{
    if s.len() == 0 {
        s
    } else if s.last().name@ != name {
        tokens_without(s.drop_last(), name).push(s.last())
    } else {
        tokens_without(s.drop_last(), name)
    }
}

proof fn lemma_tokens_without(s: Seq<ClientToken>, name: Seq<char>)
    ensures
        tokens_without(s, name).len() <= s.len(),
        tokens_without(s, name).len() == s.len() ==> tokens_without(s, name) == s,
    decreases s.len(),
{
    if s.len() > 0 {
        lemma_tokens_without(s.drop_last(), name);
        if tokens_without(s, name).len() == s.len() {
            assert(s.last().name@ != name);
            assert(s.drop_last().push(s.last()) =~= s);
        }
    }
}

/// Every token kept by deleting `name` has another name.
proof fn lemma_tokens_without_names(s: Seq<ClientToken>, name: Seq<char>)
    ensures
        forall|k: int|
            0 <= k < tokens_without(s, name).len() ==> (#[trigger] tokens_without(s, name)[k]).name@
                != name,
    decreases s.len(),
{
    if s.len() > 0 {
        lemma_tokens_without_names(s.drop_last(), name);
    }
}

/// Every token kept by a deletion was there before.
proof fn lemma_tokens_without_from(s: Seq<ClientToken>, name: Seq<char>)
    ensures
        forall|k: int|
            0 <= k < tokens_without(s, name).len() ==> exists|m: int|
                0 <= m < s.len() && #[trigger] tokens_without(s, name)[k] == s[m],
    decreases s.len(),
{
    if s.len() > 0 {
        let p = s.drop_last();
        lemma_tokens_without_from(p, name);
        assert forall|k: int| 0 <= k < tokens_without(s, name).len() implies exists|m: int|
            0 <= m < s.len() && #[trigger] tokens_without(s, name)[k] == s[m] by {
            if k < tokens_without(p, name).len() {
                let m = choose|m: int| 0 <= m < p.len() && tokens_without(p, name)[k] == p[m];
                assert(s[m] == p[m]);
            } else {
                assert(tokens_without(s, name)[k] == s[s.len() - 1]);
            }
        }
    }
}

/// The first token letting `raw` in, when it is not named `name`, is
/// still the first one after the deletion.
proof fn lemma_tokens_without_first(s: Seq<ClientToken>, name: Seq<char>, raw: Seq<char>, i: int)
    requires
        first_admitting(s, raw, i),
        s[i].name@ != name,
    ensures
        exists|j: int|
            first_admitting(tokens_without(s, name), raw, j) && #[trigger] tokens_without(
                s,
                name,
            )[j] == s[i],
    decreases s.len(),
{
    let p = s.drop_last();
    let w = tokens_without(s, name);
    let wp = tokens_without(p, name);
    if i < p.len() {
        assert(first_admitting(p, raw, i)) by {
            assert forall|j: int| 0 <= j < i implies !admits(#[trigger] p[j], raw) by {
                assert(p[j] == s[j]);
            }
        }
        lemma_tokens_without_first(p, name, raw, i);
        let j = choose|j: int| first_admitting(wp, raw, j) && #[trigger] wp[j] == p[i];
        assert(first_admitting(w, raw, j)) by {
            assert forall|m: int| 0 <= m < j implies !admits(#[trigger] w[m], raw) by {
                assert(w[m] == wp[m]);
            }
        }
        assert(w[j] == s[i]);
    } else {
        lemma_tokens_without_from(p, name);
        let j = wp.len() as int;
        assert(w == wp.push(s[i]));
        assert forall|m: int| 0 <= m < j implies !admits(#[trigger] w[m], raw) by {
            assert(w[m] == wp[m]);
            let k = choose|k: int| 0 <= k < p.len() && wp[m] == p[k];
            assert(p[k] == s[k]);
        }
        assert(first_admitting(w, raw, j));
        assert(w[j] == s[i]);
    }
}

/// A configuration update stores the trimmed value of a URL field of the
/// form, clears it when the form's value is blank, and keeps the old value
/// when the form leaves the field out.
pub proof fn law_url_field_saved(form: Seq<(Seq<char>, Seq<char>)>, key: Seq<char>, old: Option<String>)
    ensures
        assoc_get(form, key) matches Some(v) ==> (trim(v).len() > 0 ==> updated_opt(form, key, old)
            == Some(trim(v))),
        assoc_get(form, key) matches Some(v) ==> (trim(v).len() == 0 ==> updated_opt(form, key, old)
            is None),
        assoc_get(form, key) is None ==> updated_opt(form, key, old) == opt_view(old),
{
}

/// When a configuration update carries provider fields (and there is an
/// account, or some field is not blank), each `provider_...` field of the
/// form is stored, trimmed, in its own field of the account (the password
/// as it is, when not empty); a field the form leaves out keeps the old
/// account's value.
pub proof fn law_provider_fields_saved(form: Seq<(Seq<char>, Seq<char>)>, old: Option<ProviderConfig>)
    requires
        has_provider_field(form),
        old is Some || has_provider_value(form),
    ensures
        updated_provider(form, old) matches Some(p) && {
            &&& (assoc_get(form, "provider_user_id"@) matches Some(v) ==> p.0 == trim(v))
            &&& (assoc_get(form, "provider_password"@) matches Some(v) ==> (v.len() > 0 ==> p.1
                == v))
            &&& (assoc_get(form, "provider_stb_id"@) matches Some(v) ==> p.2 == trim(v))
            &&& (assoc_get(form, "provider_local_ip"@) matches Some(v) ==> p.3 == trim(v))
            &&& (assoc_get(form, "provider_local_mac"@) matches Some(v) ==> p.4 == trim(v))
            &&& (assoc_get(form, "provider_auth_server_url"@) matches Some(v) ==> p.5 == trim(v))
            &&& (old matches Some(o) ==> {
                &&& (assoc_get(form, "provider_user_id"@) is None ==> p.0 == o.user_id@)
                &&& (assoc_get(form, "provider_password"@) is None ==> p.1 == o.password@)
                &&& (assoc_get(form, "provider_stb_id"@) is None ==> p.2 == o.stb_id@)
                &&& (assoc_get(form, "provider_local_ip"@) is None ==> p.3 == o.local_ip@)
                &&& (assoc_get(form, "provider_local_mac"@) is None ==> p.4 == o.local_mac@)
                &&& (assoc_get(form, "provider_auth_server_url"@) is None ==> p.5
                    == o.auth_server_url@)
            })
        },
{
}

/// A token just created lets in the raw token it was created with.
pub proof fn law_created_token_admits(
    tokens: Seq<ClientToken>,
    t: ClientToken,
    id_random: Seq<u8>,
    name: Seq<char>,
    raw: Seq<char>,
    now: u64,
)
    requires
        new_token_ok(t, id_random, name, raw, now),
    ensures
        matching_token(tokens.push(t), raw) is Some,
{
    let s = tokens.push(t);
    assert(admits(s[tokens.len() as int], raw));
}

/// Deleting the tokens named `name` locks that client out: no raw token
/// lets anyone in under that name afterwards. A raw token that let in a
/// client with another name still lets in that same token.
pub proof fn law_delete_revokes_only_that_name(
    tokens: Seq<ClientToken>,
    name: Seq<char>,
    raw: Seq<char>,
)
    ensures
        matching_token(tokens_without(tokens, name), raw) matches Some(j) ==> tokens_without(
            tokens,
            name,
        )[j].name@ != name,
        matching_token(tokens, raw) matches Some(i) ==> (tokens[i].name@ != name ==> (
        matching_token(tokens_without(tokens, name), raw) matches Some(j) && tokens_without(
            tokens,
            name,
        )[j] == tokens[i])),
{
    let w = tokens_without(tokens, name);
    lemma_tokens_without_names(tokens, name);
    lemma_matching_token(w, raw);
    lemma_matching_token(tokens, raw);
    if let Some(i) = matching_token(tokens, raw) {
        if tokens[i].name@ != name {
            lemma_tokens_without_first(tokens, name, raw, i);
            let j = choose|j: int| first_admitting(w, raw, j) && #[trigger] w[j] == tokens[i];
            assert(matching_token(w, raw) == Some(j));
        }
    }
}

impl AppState {
    /// `POST /admin/tokens`: creates a client token named by the form
    /// (`client` by default) and gives back the raw token; the caller saves
    /// the configuration.
    pub fn create_token(
        &mut self,
        request: &Request,
        random: Result<[u8; 32], String>,
        id_random: &[u8; 16],
        now: u64,
    ) -> (r: Result<String, String>)
        requires
            form_decodable(request.body@),
        ensures
            !is_admin(*request, old(self).config) ==> (r matches Err(e) && e@ == admin_unauthorized()
                && *final(self) == *old(self)),
            is_admin(*request, old(self).config) ==> match random {
                Err(e) => r matches Err(x) && x@ == error_response(
                    500,
                    "token_generation_failed"@,
                    e@,
                ) && *final(self) == *old(self),
                Ok(bytes) => {
                    let name = token_name_spec(form_spec(request.body@));
                    &&& r matches Ok(raw) && raw@ == token_spec(name, bytes@)
                    &&& only_tokens_change(*old(self), *final(self))
                    &&& final(self).config.tokens@.len() == old(self).config.tokens@.len() + 1
                    &&& final(self).config.tokens@.drop_last() == old(self).config.tokens@
                    &&& new_token_ok(
                        final(self).config.tokens@.last(),
                        id_random@,
                        name,
                        token_spec(name, bytes@),
                        now,
                    )
                },
            },
    {
        if !self.authorized_admin(request) {
            return Err(json_error(401, "admin_unauthorized", "admin password required"));
        }
        let form = parse_form(request.body.as_str());
        let name = match lookup(&form, "name") {
            Some(n) => n,
            None => String::from_str("client"),
        };
        let bytes = match random {
            Ok(b) => b,
            Err(e) => return Err(json_error(500, "token_generation_failed", e.as_str())),
        };
        let raw = generate_token(name.as_str(), &bytes);
        let token = new_token(name.as_str(), raw.as_str(), id_random, now);
        self.config.tokens.push(token);
        assert(self.config.tokens@.drop_last() =~= old(self).config.tokens@);
        Ok(raw)
    }
}

/// The answer to a created token once the configuration is saved, or not.
pub fn token_created_response(saved: Result<(), String>, raw: &str) -> (r: String)
    ensures
        match saved {
            Ok(()) => r@ == response_spec(
                200,
                "application/json"@,
                "{\"token\":"@ + json_quote(raw@) + "}"@,
            ),
            Err(e) => r@ == error_response(500, "config_save_failed"@, e@),
        },
{
    match saved {
        Ok(()) => {
            let mut body = lit("{\"token\":");
            extend_chars(&mut body, chars_of(crate::server::http::json_string(raw).as_str()).as_slice());
            extend_chars(&mut body, lit("}").as_slice());
            json_response(200, string_of(body.as_slice()))
        },
        Err(e) => json_error(500, "config_save_failed", e.as_str()),
    }
}

impl AppState {
    /// `DELETE /admin/tokens`: deletes the client tokens with the given
    /// name and counts them; the caller saves the configuration.
    pub fn delete_token(&mut self, request: &Request) -> (r: Result<usize, String>)
        requires
            form_decodable(request.body@),
        ensures
            !is_admin(*request, old(self).config) ==> (r matches Err(e) && e@ == admin_unauthorized()
                && *final(self) == *old(self)),
            is_admin(*request, old(self).config) ==> match delete_name_spec(*request) {
                None => r matches Err(e) && e@ == error_response(
                    400,
                    "missing_token_name"@,
                    "name is required"@,
                ) && *final(self) == *old(self),
                Some(n) => if trim(n).len() == 0 {
                    r matches Err(e) && e@ == error_response(
                        400,
                        "missing_token_name"@,
                        "name is required"@,
                    ) && *final(self) == *old(self)
                } else {
                    let kept = tokens_without(old(self).config.tokens@, trim(n));
                    &&& only_tokens_change(*old(self), *final(self))
                    &&& final(self).config.tokens@ == kept
                    &&& if kept.len() == old(self).config.tokens@.len() {
                        r matches Err(e) && e@ == error_response(
                            404,
                            "token_not_found"@,
                            "token name not found"@,
                        )
                    } else {
                        r == Ok::<usize, String>(
                            (old(self).config.tokens@.len() - kept.len()) as usize,
                        )
                    }
                },
            },
    {
        if !self.authorized_admin(request) {
            return Err(json_error(401, "admin_unauthorized", "admin password required"));
        }
        let form = parse_form(request.body.as_str());
        let name = match lookup(&request.query, "name") {
            Some(n) => n,
            None => match lookup(&form, "name") {
                Some(n) => n,
                None => return Err(json_error(400, "missing_token_name", "name is required")),
            },
        };
        let name = trim_str(name.as_str());
        if name.len() == 0 {
            return Err(json_error(400, "missing_token_name", "name is required"));
        }
        let before = self.config.tokens.len();
        let ghost old_tokens = self.config.tokens@;
        let ghost target = name@;
        let mut kept: Vec<ClientToken> = Vec::new();
        let mut i: usize = 0;
        while i < self.config.tokens.len()
            invariant
                old_tokens == self.config.tokens@,
                target == name@,
                i <= old_tokens.len(),
                kept@ == tokens_without(old_tokens.take(i as int), target),
            decreases old_tokens.len() - i,
        {
            let t = &self.config.tokens[i];
            assert(old_tokens.take(i as int + 1).drop_last() =~= old_tokens.take(i as int));
            assert(old_tokens.take(i as int + 1).last() == old_tokens[i as int]);
            if !seq_equal(chars_of(t.name.as_str()).as_slice(), name.as_slice()) {
                kept.push(t.clone());
            }
            i = i + 1;
        }
        assert(old_tokens.take(old_tokens.len() as int) =~= old_tokens);
        proof {
            lemma_tokens_without(old_tokens, target);
        }
        let deleted = before - kept.len();
        self.config.tokens = kept;
        if deleted == 0 {
            return Err(json_error(404, "token_not_found", "token name not found"));
        }
        Ok(deleted)
    }
}

/// The answer to deleted tokens once the configuration is saved, or not.
pub fn tokens_deleted_response(saved: Result<(), String>, deleted_count: usize) -> (r: String)
    ensures
        match saved {
            Ok(()) => r@ == response_spec(
                200,
                "application/json"@,
                "{\"deletedCount\":"@ + dec(deleted_count as nat) + ",\"ok\":true}"@,
            ),
            Err(e) => r@ == error_response(500, "config_save_failed"@, e@),
        },
{
    match saved {
        Ok(()) => {
            let mut body = lit("{\"deletedCount\":");
            extend_chars(&mut body, dec_chars(deleted_count as u128).as_slice());
            extend_chars(&mut body, lit(",\"ok\":true}").as_slice());
            json_response(200, string_of(body.as_slice()))
        },
        Err(e) => json_error(500, "config_save_failed", e.as_str()),
    }
}

/// Everything but the pairing sessions stays.
pub open spec fn only_pairing_changes(a: AppState, b: AppState) -> bool {
    &&& b.config_path == a.config_path
    &&& b.channel_number_overrides_path == a.channel_number_overrides_path
    &&& b.cache == a.cache
    &&& b.epg_cache == a.epg_cache
    &&& b.ctc_session == a.ctc_session
    &&& b.config == a.config
}

pub open spec fn pairing_error_response(t: (u16, Seq<char>, Seq<char>)) -> Seq<char> {
    error_response(t.0, t.1, t.2)
}

fn opt_str(o: &Option<String>) -> (r: Option<&str>)
    ensures
        opt_ref_view(r) == opt_view(*o),
{
    match o {
        Some(s) => Some(s.as_str()),
        None => None,
    }
}

impl AppState {
    /// `GET /admin/api/v1/pairing/sessions`: the pending pairing sessions.
    pub fn pairing_sessions(&mut self, request: &Request, now: u64) -> (r: Result<
        PendingPairingSessionsResponse,
        String,
    >)
        ensures
            !is_admin(*request, old(self).config) ==> (r matches Err(e) && e@ == admin_unauthorized()
                && *final(self) == *old(self)),
            is_admin(*request, old(self).config) ==> match query_value(*request, "status"@) {
                Some(s) if s != "pending"@ => r matches Err(e) && e@ == error_response(
                    400,
                    "unsupported_status"@,
                    "only pending pairing sessions can be listed"@,
                ) && *final(self) == *old(self),
                _ => {
                    &&& only_pairing_changes(*old(self), *final(self))
                    &&& final(self).pairing@ == prune_spec(old(self).pairing@, now)
                    &&& r matches Ok(resp) && crate::pairing::sorted_by_created(resp.data@)
                        && crate::pairing::entries_view(resp.data@).to_multiset()
                        == pending_entries(final(self).pairing@).to_multiset()
                },
            },
    {
        if !self.authorized_admin(request) {
            return Err(json_error(401, "admin_unauthorized", "admin password required"));
        }
        if let Some(status) = lookup(&request.query, "status") {
            if !seq_equal(chars_of(status.as_str()).as_slice(), lit("pending").as_slice()) {
                return Err(
                    json_error(
                        400,
                        "unsupported_status",
                        "only pending pairing sessions can be listed",
                    ),
                );
            }
        }
        Ok(self.pairing.pending_sessions(now))
    }

    /// `POST /admin/api/v1/pairing/approve`, up to saving: finds the session
    /// by its pairing code, creates the client token named after the device
    /// and gives back the session and the raw token; the caller saves the
    /// configuration and then calls `finish_approval`.
    pub fn approve_pairing(
        &mut self,
        request: &Request,
        parsed: Result<ApprovePairingRequest, String>,
        random: Result<[u8; 32], String>,
        id_random: &[u8; 16],
        now: u64,
    ) -> (r: Result<(PairingApprovalCandidate, String), String>)
        ensures
            !is_admin(*request, old(self).config) ==> (r matches Err(e) && e@ == admin_unauthorized()
                && *final(self) == *old(self)),
            is_admin(*request, old(self).config) ==> match parsed {
                Err(m) => r matches Err(e) && e@ == error_response(400, "bad_request"@, m@)
                    && *final(self) == *old(self),
                Ok(req) => {
                    let pruned = prune_spec(old(self).pairing@, now);
                    &&& final(self).pairing@ == pruned
                    &&& match candidate_spec(
                        pruned,
                        req.pairing_code@,
                        opt_view(req.device_label),
                        now,
                    ) {
                        Err(t) => r matches Err(e) && e@ == pairing_error_response(t)
                            && final(self).config == old(self).config,
                        Ok((id, name)) => match random {
                            Err(m) => r matches Err(e) && e@ == error_response(
                                500,
                                "token_generation_failed"@,
                                m@,
                            ) && final(self).config == old(self).config,
                            Ok(bytes) => {
                                &&& r matches Ok((c, raw)) && c.session_id@ == id && c.token_name@
                                    == name && raw@ == token_spec(name, bytes@)
                                &&& final(self).config.tokens@.len() == old(
                                    self,
                                ).config.tokens@.len() + 1
                                &&& final(self).config.tokens@.drop_last() == old(
                                    self,
                                ).config.tokens@
                                &&& new_token_ok(
                                    final(self).config.tokens@.last(),
                                    id_random@,
                                    name,
                                    token_spec(name, bytes@),
                                    now,
                                )
                                &&& final(self).config == (ProxyConfig {
                                    tokens: final(self).config.tokens,
                                    ..old(self).config
                                })
                            },
                        },
                    }
                    &&& final(self).cache == old(self).cache
                    &&& final(self).epg_cache == old(self).epg_cache
                    &&& final(self).ctc_session == old(self).ctc_session
                },
            },
    {
        if !self.authorized_admin(request) {
            return Err(json_error(401, "admin_unauthorized", "admin password required"));
        }
        let req = match parsed {
            Ok(req) => req,
            Err(e) => return Err(json_error(400, "bad_request", e.as_str())),
        };
        let candidate = match self.pairing.approval_candidate(
            req.pairing_code.as_str(),
            opt_str(&req.device_label),
            now,
        ) {
            Ok(c) => c,
            Err(e) => return Err(pairing_error(e)),
        };
        let bytes = match random {
            Ok(b) => b,
            Err(e) => return Err(json_error(500, "token_generation_failed", e.as_str())),
        };
        let raw = generate_token(candidate.token_name.as_str(), &bytes);
        let token = new_token(candidate.token_name.as_str(), raw.as_str(), id_random, now);
        self.config.tokens.push(token);
        assert(self.config.tokens@.drop_last() =~= old(self).config.tokens@);
        Ok((candidate, raw))
    }

    /// `POST /admin/api/v1/pairing/approve`, after saving: marks the session
    /// approved with the raw token, which its client then picks up.
    pub fn finish_approval(
        &mut self,
        saved: Result<(), String>,
        candidate: PairingApprovalCandidate,
        raw: String,
    ) -> (r: Result<PairingDecisionResponse, String>)
        ensures
            only_pairing_changes(*old(self), *final(self)),
            match saved {
                Err(e) => r matches Err(x) && x@ == error_response(500, "config_save_failed"@, e@)
                    && final(self).pairing == old(self).pairing,
                Ok(()) => match index_of_id(old(self).pairing@, candidate.session_id@) {
                    None => r matches Err(x) && x@ == error_response(
                        404,
                        "pairing_not_found"@,
                        "pairing session not found"@,
                    ) && final(self).pairing@ == old(self).pairing@,
                    Some(i) => r matches Ok(d) && d.status@ == "approved"@ && opt_view(d.client_id)
                        == Some(candidate.session_id@) && final(self).pairing@ == with_status(
                        old(self).pairing@,
                        i,
                        StoredPairingStatus::Approved { access_token: raw },
                    ),
                },
            },
    {
        if let Err(e) = saved {
            return Err(json_error(500, "config_save_failed", e.as_str()));
        }
        match self.pairing.approve(candidate.session_id.as_str(), raw) {
            Ok(()) => Ok(
                PairingDecisionResponse { status: "approved", client_id: Some(candidate.session_id) },
            ),
            Err(e) => Err(pairing_error(e)),
        }
    }

    /// `POST /admin/api/v1/pairing/reject`: marks the session with the
    /// pairing code rejected.
    pub fn reject_pairing(
        &mut self,
        request: &Request,
        parsed: Result<RejectPairingRequest, String>,
        now: u64,
    ) -> (r: Result<PairingDecisionResponse, String>)
        ensures
            !is_admin(*request, old(self).config) ==> (r matches Err(e) && e@ == admin_unauthorized()
                && *final(self) == *old(self)),
            is_admin(*request, old(self).config) ==> match parsed {
                Err(m) => r matches Err(e) && e@ == error_response(400, "bad_request"@, m@)
                    && *final(self) == *old(self),
                Ok(req) => {
                    let pruned = prune_spec(old(self).pairing@, now);
                    &&& only_pairing_changes(*old(self), *final(self))
                    &&& match decision_index(pruned, digits_only(req.pairing_code@)) {
                        None => r matches Err(e) && e@ == error_response(
                            404,
                            "pairing_not_found"@,
                            "pairing code not found"@,
                        ) && final(self).pairing@ == pruned,
                        Some(i) => r matches Ok(d) && d.status@ == "rejected"@
                            && d.client_id is None && final(self).pairing@ == with_status(
                            pruned,
                            i,
                            StoredPairingStatus::Rejected,
                        ),
                    }
                },
            },
    {
        if !self.authorized_admin(request) {
            return Err(json_error(401, "admin_unauthorized", "admin password required"));
        }
        let req = match parsed {
            Ok(req) => req,
            Err(e) => return Err(json_error(400, "bad_request", e.as_str())),
        };
        match self.pairing.reject(req.pairing_code.as_str(), now) {
            Ok(()) => Ok(PairingDecisionResponse { status: "rejected", client_id: None }),
            Err(e) => Err(pairing_error(e)),
        }
    }
}

} // verus!
