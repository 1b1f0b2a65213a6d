//! The service configuration and its startup checks.
use vstd::prelude::*;

use crate::auth::{clone_tokens, hash_secret, secret_hash, ClientToken};
use crate::cache::clone_opt_string;
use crate::stream::StreamProxyConfig;
use crate::text::{
    chars_of, char_is_hex_digit, find, find_seq, has_prefix, is_hex_digit, lit, seq_equal, slice_vec,
    starts_with,
};

verus! {

/// The file-backed configuration of the proxy.
#[derive(Debug)]
pub struct ProxyConfig {
    pub listen: String,
    pub admin_password_hash: String,
    pub channel_cache_ttl_seconds: u64,
    pub epg_cache_ttl_seconds: u64,
    pub backend_channels_url: Option<String>,
    pub provider: Option<ProviderConfig>,
    pub pairing: PairingConfig,
    pub stream: StreamProxyConfig,
    pub tokens: Vec<ClientToken>,
}

/// The IPTV provider account that the proxy logs in with.
#[derive(Debug, PartialEq, Eq)]
pub struct ProviderConfig {
    pub user_id: String,
    pub password: String,
    pub stb_id: String,
    pub local_ip: String,
    pub local_mac: String,
    pub auth_server_url: String,
}

impl Clone for ProviderConfig {
    fn clone(&self) -> (r: Self)
        ensures
            r == *self,
    {
        ProviderConfig {
            user_id: self.user_id.clone(),
            password: self.password.clone(),
            stb_id: self.stb_id.clone(),
            local_ip: self.local_ip.clone(),
            local_mac: self.local_mac.clone(),
            auth_server_url: self.auth_server_url.clone(),
        }
    }
}

#[derive(Debug, Clone, Copy, PartialEq, Eq)]
pub struct PairingConfig {
    pub session_ttl_seconds: u64,
    pub poll_interval_seconds: u64,
    pub create_rate_limit: RateLimitConfig,
}

#[derive(Debug, Clone, Copy, PartialEq, Eq)]
pub struct RateLimitConfig {
    pub enabled: bool,
    pub window_seconds: u64,
    pub max_requests: u32,
}

/// A channel number fixed by the admin for a channel code.
#[derive(Debug, PartialEq, Eq)]
pub struct ChannelNumberOverride {
    pub name: Option<String>,
    pub number: u32,
}

impl Clone for ChannelNumberOverride {
    fn clone(&self) -> (r: Self)
        ensures
            r == *self,
    {
        ChannelNumberOverride { name: clone_opt_string(&self.name), number: self.number }
    }
}

/// The channel number overrides, by channel code; no code occurs twice.
#[derive(Debug)]
pub struct ChannelNumberOverrides {
    entries: Vec<(String, ChannelNumberOverride)>,
}

spec fn codes_distinct(s: Seq<(String, ChannelNumberOverride)>) -> bool {
    forall|i: int, j: int|
        0 <= i < s.len() && 0 <= j < s.len() && i != j ==> #[trigger] s[i].0@ != #[trigger] s[j].0@
}

spec fn overrides_map(s: Seq<(String, ChannelNumberOverride)>) -> Map<Seq<char>, ChannelNumberOverride> {
    Map::new(
        |k: Seq<char>| exists|i: int| 0 <= i < s.len() && #[trigger] s[i].0@ == k,
        |k: Seq<char>|
            {
                let i = choose|i: int| 0 <= i < s.len() && #[trigger] s[i].0@ == k;
                s[i].1
            },
    )
}

proof fn lemma_overrides_lookup(s: Seq<(String, ChannelNumberOverride)>, i: int)
    requires
        codes_distinct(s),
        0 <= i < s.len(),
    ensures
        overrides_map(s).contains_key(s[i].0@),
        overrides_map(s)[s[i].0@] == s[i].1,
{
    let k = s[i].0@;
    assert(overrides_map(s).contains_key(k));
    let c = choose|c: int| 0 <= c < s.len() && #[trigger] s[c].0@ == k;
    if c != i {
        assert(s[c].0@ != s[i].0@);
    }
}

impl View for ChannelNumberOverrides {
    type V = Map<Seq<char>, ChannelNumberOverride>;

    closed spec fn view(&self) -> Map<Seq<char>, ChannelNumberOverride> {
        overrides_map(self.entries@)
    }
}

/// The number fixed for `code`.
pub open spec fn override_lookup(m: Map<Seq<char>, ChannelNumberOverride>, code: Seq<char>) -> Option<u32> {
    if m.contains_key(code) {
        Some(m[code].number)
    } else {
        None
    }
}

impl ChannelNumberOverrides {
    #[verifier::type_invariant]
    spec fn well_formed(&self) -> bool {
        codes_distinct(self.entries@)
    }

    /// No overrides.
    pub fn new() -> (r: Self)
        ensures
            r@ == Map::<Seq<char>, ChannelNumberOverride>::empty(),
    {
        let r = ChannelNumberOverrides { entries: Vec::new() };
        assert(r@ =~= Map::<Seq<char>, ChannelNumberOverride>::empty());
        r
    }

    fn position(&self, code: &str) -> (r: Option<usize>)
        ensures
            match r {
                Some(i) => i < self.entries@.len() && self.entries@[i as int].0@ == code@
                    && self@.contains_key(code@) && self@[code@] == self.entries@[i as int].1,
                None => !self@.contains_key(code@),
            },
    {
        proof {
            use_type_invariant(self);
        }
        let target = chars_of(code);
        let mut i: usize = 0;
        while i < self.entries.len()
            invariant
                codes_distinct(self.entries@),
                target@ == code@,
                i <= self.entries@.len(),
                forall|j: int| 0 <= j < i ==> self.entries@[j].0@ != code@,
            decreases self.entries@.len() - i,
        {
            let key = chars_of(self.entries[i].0.as_str());
            if crate::text::seq_equal(key.as_slice(), target.as_slice()) {
                proof {
                    lemma_overrides_lookup(self.entries@, i as int);
                }
                return Some(i);
            }
            i = i + 1;
        }
        None
    }

    /// The override for a channel code.
    pub fn get(&self, code: &str) -> (r: Option<ChannelNumberOverride>)
        ensures
            match r {
                Some(o) => self@.contains_key(code@) && o == self@[code@],
                None => !self@.contains_key(code@),
            },
    {
        match self.position(code) {
            Some(i) => Some(self.entries[i].1.clone()),
            None => None,
        }
    }

    /// The number fixed for a channel code.
    pub fn number_for(&self, code: &str) -> (r: Option<u32>)
        ensures
            r == override_lookup(self@, code@),
    {
        match self.position(code) {
            Some(i) => Some(self.entries[i].1.number),
            None => None,
        }
    }

    /// Sets the override for a channel code, replacing the one it had.
    pub fn insert(&mut self, code: String, value: ChannelNumberOverride)
        ensures
            final(self)@ == old(self)@.insert(code@, value),
    {
        proof {
            use_type_invariant(&*self);
        }
        let ghost kv = code@;
        let ghost before = self.entries@;
        let pos = self.position(code.as_str());
        let ghost at: int = match pos {
            Some(i) => i as int,
            None => self.entries@.len() as int,
        };
        let mut entries: Vec<(String, ChannelNumberOverride)> = Vec::new();
        std::mem::swap(&mut entries, &mut self.entries);
        match pos {
            Some(i) => {
                entries.set(i, (code, value));
            },
            None => {
                entries.push((code, value));
            },
        }
        proof {
            let s = entries@;
            assert(s[at].0@ == kv);
            assert forall|j: int| 0 <= j < s.len() && j != at implies #[trigger] s[j] == before[j]
                && before[j].0@ != kv by {
                if pos is Some {
                    assert(before[j].0@ != before[at].0@);
                }
            }
            assert(codes_distinct(s));
            lemma_overrides_lookup(s, at);
            let target = overrides_map(before).insert(kv, value);
            assert forall|k: Seq<char>| #[trigger] overrides_map(s).contains_key(k)
                == target.contains_key(k) by {
                if k != kv {
                    if overrides_map(before).contains_key(k) {
                        let c = choose|c: int| 0 <= c < before.len() && #[trigger] before[c].0@ == k;
                        assert(s[c] == before[c]);
                    }
                    if overrides_map(s).contains_key(k) {
                        let c = choose|c: int| 0 <= c < s.len() && #[trigger] s[c].0@ == k;
                        assert(before[c] == s[c]);
                    }
                }
            }
            assert forall|k: Seq<char>| #[trigger] overrides_map(s).contains_key(k) implies overrides_map(
                s,
            )[k] == target[k] by {
                if k != kv {
                    let c = choose|c: int| 0 <= c < s.len() && #[trigger] s[c].0@ == k;
                    assert(before[c] == s[c]);
                    lemma_overrides_lookup(s, c);
                    lemma_overrides_lookup(before, c);
                }
            }
            assert(overrides_map(s) =~= target);
        }
        self.entries = entries;
    }
}

fn default_channel_cache_ttl_seconds() -> (r: u64)
    ensures
        r == 3600,
{
    3600
}

fn default_epg_cache_ttl_seconds() -> (r: u64)
    ensures
        r == 300,
{
    300
}

fn default_pairing_session_ttl_seconds() -> (r: u64)
    ensures
        r == 300,
{
    300
}

fn default_pairing_poll_interval_seconds() -> (r: u64)
    ensures
        r == 2,
{
    2
}

fn default_pairing_rate_limit_window_seconds() -> (r: u64)
    ensures
        r == 60,
{
    60
}

fn default_pairing_rate_limit_max_requests() -> (r: u32)
    ensures
        r == 10,
{
    10
}

impl Default for RateLimitConfig {
    fn default() -> (r: Self)
        ensures
            r == (RateLimitConfig { enabled: false, window_seconds: 60, max_requests: 10 }),
    {
        RateLimitConfig {
            enabled: false,
            window_seconds: default_pairing_rate_limit_window_seconds(),
            max_requests: default_pairing_rate_limit_max_requests(),
        }
    }
}

impl Default for PairingConfig {
    fn default() -> (r: Self)
        ensures
            r.session_ttl_seconds == 300,
            r.poll_interval_seconds == 2,
            r.create_rate_limit == (RateLimitConfig {
                enabled: false,
                window_seconds: 60,
                max_requests: 10,
            }),
    {
        PairingConfig {
            session_ttl_seconds: default_pairing_session_ttl_seconds(),
            poll_interval_seconds: default_pairing_poll_interval_seconds(),
            create_rate_limit: RateLimitConfig::default(),
        }
    }
}

impl Default for ProxyConfig {
    fn default() -> (r: Self)
        ensures
            r.listen@ == "127.0.0.1:8088"@,
            r.admin_password_hash@ == secret_hash("admin"@),
            r.channel_cache_ttl_seconds == 3600,
            r.epg_cache_ttl_seconds == 300,
            r.backend_channels_url is None,
            r.provider is None,
            r.pairing.session_ttl_seconds == 300,
            r.pairing.poll_interval_seconds == 2,
            r.pairing.create_rate_limit == (RateLimitConfig {
                enabled: false,
                window_seconds: 60,
                max_requests: 10,
            }),
            r.stream.udpxy_base_url is None,
            r.tokens@.len() == 0,
    {
        ProxyConfig {
            listen: String::from_str("127.0.0.1:8088"),
            admin_password_hash: hash_secret("admin"),
            channel_cache_ttl_seconds: default_channel_cache_ttl_seconds(),
            epg_cache_ttl_seconds: default_epg_cache_ttl_seconds(),
            backend_channels_url: None,
            provider: None,
            pairing: PairingConfig::default(),
            stream: StreamProxyConfig::default(),
            tokens: Vec::new(),
        }
    }
}

impl Clone for ProxyConfig {
    fn clone(&self) -> (r: Self)
        ensures
            r.listen@ == self.listen@,
            r.admin_password_hash@ == self.admin_password_hash@,
            r.channel_cache_ttl_seconds == self.channel_cache_ttl_seconds,
            r.epg_cache_ttl_seconds == self.epg_cache_ttl_seconds,
            r.backend_channels_url == self.backend_channels_url,
            r.provider == self.provider,
            r.pairing == self.pairing,
            r.stream == self.stream,
            r.tokens@ == self.tokens@,
    {
        let provider = match &self.provider {
            Some(p) => Some(p.clone()),
            None => None,
        };
        ProxyConfig {
            listen: self.listen.clone(),
            admin_password_hash: self.admin_password_hash.clone(),
            channel_cache_ttl_seconds: self.channel_cache_ttl_seconds,
            epg_cache_ttl_seconds: self.epg_cache_ttl_seconds,
            backend_channels_url: clone_opt_string(&self.backend_channels_url),
            provider,
            pairing: self.pairing,
            stream: self.stream.clone(),
            tokens: clone_tokens(&self.tokens),
        }
    }
}

/// Why an admin password hash is refused at startup, if it is.
pub open spec fn admin_hash_problem(value: Seq<char>) -> Option<Seq<char>> {
    if !starts_with(value, "sha256:"@) {
        Some("admin_password_hash must start with sha256:"@)
    } else if find(value.skip(7), "replace"@) is Some {
        Some("admin_password_hash is still the example placeholder"@)
    } else if value == secret_hash("admin"@) {
        Some("admin_password_hash must not use the default password 'admin'"@)
    } else if value.skip(7).len() != 64 || !(forall|i: int|
        0 <= i < value.skip(7).len() ==> is_hex_digit(#[trigger] value.skip(7)[i])) {
        Some("admin_password_hash must be sha256: followed by 64 hex characters"@)
    } else {
        None
    }
}

fn all_hex(s: &[char]) -> (r: bool)
    ensures
        r == forall|i: int| 0 <= i < s@.len() ==> is_hex_digit(#[trigger] s@[i]),
{
    let mut i: usize = 0;
    while i < s.len()
        invariant
            i <= s@.len(),
            forall|j: int| 0 <= j < i ==> is_hex_digit(#[trigger] s@[j]),
        decreases s@.len() - i,
    {
        if !char_is_hex_digit(s[i]) {
            return false;
        }
        i = i + 1;
    }
    true
}

fn validate_admin_password_hash(value: &str) -> (r: Result<(), String>)
    ensures
        match admin_hash_problem(value@) {
            None => r is Ok,
            Some(msg) => r matches Err(m) && m@ == msg,
        },
{
    let v = chars_of(value);
    let prefix = lit("sha256:");
    proof {
        reveal_strlit("sha256:");
    }
    if !has_prefix(v.as_slice(), prefix.as_slice()) {
        return Err(String::from_str("admin_password_hash must start with sha256:"));
    }
    let hex = slice_vec(v.as_slice(), 7, v.len());
    assert(hex@ == value@.skip(7));
    if find_seq(hex.as_slice(), lit("replace").as_slice()).is_some() {
        return Err(String::from_str("admin_password_hash is still the example placeholder"));
    }
    let default_hash = chars_of(hash_secret("admin").as_str());
    if seq_equal(v.as_slice(), default_hash.as_slice()) {
        return Err(
            String::from_str("admin_password_hash must not use the default password 'admin'"),
        );
    }
    if hex.len() != 64 || !all_hex(hex.as_slice()) {
        return Err(
            String::from_str("admin_password_hash must be sha256: followed by 64 hex characters"),
        );
    }
    Ok(())
}

impl ProxyConfig {
    /// Refuses to start with an admin password hash that is malformed, the
    /// example placeholder, or the hash of the default password.
    pub fn validate_startup(&self) -> (r: Result<(), String>)
        ensures
            match admin_hash_problem(self.admin_password_hash@) {
                None => r is Ok,
                Some(msg) => r matches Err(m) && m@ == msg,
            },
    {
        validate_admin_password_hash(self.admin_password_hash.as_str())
    }
}

} // verus!
