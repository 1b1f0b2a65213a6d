//! The channel list and the program guide as served to clients, and the
//! in-memory caches that hold them.
use vstd::prelude::*;

/// The clock the caches are read against.
pub use crate::auth::now_secs;

verus! {

/// A channel as clients see it.
#[derive(Debug, PartialEq, Eq)]
pub struct Channel {
    pub number: u32,
    pub name: String,
    pub stream_url: String,
    pub channel_code: Option<String>,
}

pub fn clone_opt_string(s: &Option<String>) -> (r: Option<String>)
    ensures
        r == *s,
{
    match s {
        Some(v) => Some(v.clone()),
        None => None,
    }
}

impl Clone for Channel {
    fn clone(&self) -> (r: Self)
        ensures
            r == *self,
    {
        Channel {
            number: self.number,
            name: self.name.clone(),
            stream_url: self.stream_url.clone(),
            channel_code: clone_opt_string(&self.channel_code),
        }
    }
}

/// How fresh a served response is.
#[derive(Debug, Clone, Copy, PartialEq, Eq)]
pub struct CacheMeta {
    pub stale: bool,
    pub cached_at: u64,
    pub ttl_seconds: u64,
}

#[derive(Debug, PartialEq, Eq)]
pub struct ChannelResponse {
    pub data: Vec<Channel>,
    pub cache: CacheMeta,
}

/// One program of the guide.
#[derive(Debug, PartialEq, Eq)]
pub struct Program {
    pub code: String,
    pub name: String,
    pub start: String,
    pub end: String,
    pub is_live: bool,
    pub is_replayable: bool,
}

impl Clone for Program {
    fn clone(&self) -> (r: Self)
        ensures
            r == *self,
    {
        Program {
            code: self.code.clone(),
            name: self.name.clone(),
            start: self.start.clone(),
            end: self.end.clone(),
            is_live: self.is_live,
            is_replayable: self.is_replayable,
        }
    }
}

#[derive(Debug, PartialEq, Eq)]
pub struct EpgResponse {
    pub data: Vec<Program>,
    pub cache: CacheMeta,
}

pub fn clone_channels(v: &Vec<Channel>) -> (r: Vec<Channel>)
    ensures
        r@ == v@,
{
    let mut out: Vec<Channel> = Vec::new();
    let mut i: usize = 0;
    while i < v.len()
        invariant
            i <= v@.len(),
            out@ == v@.take(i as int),
        decreases v@.len() - i,
    {
        out.push(v[i].clone());
        assert(v@.take(i as int + 1) =~= v@.take(i as int).push(v@[i as int]));
        i = i + 1;
    }
    assert(v@.take(v@.len() as int) =~= v@);
    out
}

pub fn clone_programs(v: &Vec<Program>) -> (r: Vec<Program>)
    ensures
        r@ == v@,
{
    let mut out: Vec<Program> = Vec::new();
    let mut i: usize = 0;
    while i < v.len()
        invariant
            i <= v@.len(),
            out@ == v@.take(i as int),
        decreases v@.len() - i,
    {
        out.push(v[i].clone());
        assert(v@.take(i as int + 1) =~= v@.take(i as int).push(v@[i as int]));
        i = i + 1;
    }
    assert(v@.take(v@.len() as int) =~= v@);
    out
}

/// `now - then`, or 0 when `then` lies in the future.
pub open spec fn age(now: u64, then: u64) -> int {
    if now >= then {
        now - then
    } else {
        0
    }
}

/// The channel list last fetched and when it was fetched.
#[derive(Debug)]
pub struct ChannelCache {
    channels: Vec<Channel>,
    cached_at: u64,
}

/// What a channel cache holds.
pub ghost struct ChannelCacheView {
    pub channels: Seq<Channel>,
    pub cached_at: u64,
}

impl View for ChannelCache {
    type V = ChannelCacheView;

    closed spec fn view(&self) -> ChannelCacheView {
        ChannelCacheView { channels: self.channels@, cached_at: self.cached_at }
    }
}

impl Default for ChannelCache {
    fn default() -> (r: Self)
        ensures
            r@.channels.len() == 0,
            r@.cached_at == 0,
    {
        ChannelCache { channels: Vec::new(), cached_at: 0 }
    }
}

/// The channel response a cache gives: none while it is empty.
pub open spec fn channel_response_spec(v: ChannelCacheView, ttl_seconds: u64, stale: bool) -> Option<
    (Seq<Channel>, CacheMeta),
> {
    if v.channels.len() == 0 {
        None
    } else {
        Some((v.channels, CacheMeta { stale, cached_at: v.cached_at, ttl_seconds }))
    }
}

/// The cache holds channels no older than `ttl_seconds` at `now`.
pub open spec fn channel_fresh(v: ChannelCacheView, ttl_seconds: u64, now: u64) -> bool {
    v.channels.len() > 0 && age(now, v.cached_at) <= ttl_seconds
}

/// A cache filled at `now` with a non-empty list answers with that list,
/// and is fresh exactly while no more than `ttl` seconds have passed.
pub proof fn law_channel_cache_read_after_update(
    channels: Seq<Channel>,
    now: u64,
    ttl: u64,
    later: u64,
)
    requires
        channels.len() > 0,
    ensures
        ({
            let v = ChannelCacheView { channels, cached_at: now };
            &&& channel_fresh(v, ttl, later) <==> later - now <= ttl
            &&& channel_response_spec(v, ttl, false) == Some(
                (channels, CacheMeta { stale: false, cached_at: now, ttl_seconds: ttl }),
            )
        }),
{
}

impl ChannelCache {
    /// Whether the cache holds channels no older than `ttl_seconds`.
    pub fn is_fresh(&self, ttl_seconds: u64, now: u64) -> (r: bool)
        ensures
            r == channel_fresh(self@, ttl_seconds, now),
    {
        let age = if now >= self.cached_at {
            now - self.cached_at
        } else {
            0
        };
        self.channels.len() > 0 && age <= ttl_seconds
    }

    /// Replaces the cached list.
    pub fn update(&mut self, channels: Vec<Channel>, now: u64)
        ensures
            final(self)@ == (ChannelCacheView { channels: channels@, cached_at: now }),
    {
        self.channels = channels;
        self.cached_at = now;
    }

    /// The cached list with its metadata, if the cache holds any channel.
    pub fn response(&self, ttl_seconds: u64, stale: bool) -> (r: Option<ChannelResponse>)
        ensures
            match channel_response_spec(self@, ttl_seconds, stale) {
                None => r is None,
                Some((data, meta)) => r matches Some(resp) && resp.data@ == data && resp.cache
                    == meta,
            },
    {
        if self.channels.len() == 0 {
            return None;
        }
        Some(
            ChannelResponse {
                data: clone_channels(&self.channels),
                cache: CacheMeta { stale, cached_at: self.cached_at, ttl_seconds },
            },
        )
    }
}

/// Which guide a cache entry holds.
#[derive(Debug, PartialEq, Eq)]
pub struct EpgCacheKey {
    pub channel_code: String,
    pub date_offset: i32,
}

impl Clone for EpgCacheKey {
    fn clone(&self) -> (r: Self)
        ensures
            r == *self,
    {
        EpgCacheKey { channel_code: self.channel_code.clone(), date_offset: self.date_offset }
    }
}

impl EpgCacheKey {
    pub open spec fn key_view(&self) -> (Seq<char>, i32) {
        (self.channel_code@, self.date_offset)
    }
}

#[derive(Debug)]
struct EpgCacheEntry {
    key: EpgCacheKey,
    programs: Vec<Program>,
    cached_at: u64,
}

/// The program guides fetched so far, one per channel code and day.
#[derive(Debug)]
pub struct EpgCache {
    entries: Vec<EpgCacheEntry>,
}

spec fn entries_unique(s: Seq<EpgCacheEntry>) -> bool {
    forall|i: int, j: int|
        0 <= i < s.len() && 0 <= j < s.len() && i != j ==> #[trigger] s[i].key.key_view()
            != #[trigger] s[j].key.key_view()
}

spec fn entries_view(s: Seq<EpgCacheEntry>) -> Map<(Seq<char>, i32), (Seq<Program>, u64)> {
    Map::new(
        |k: (Seq<char>, i32)| exists|i: int| 0 <= i < s.len() && #[trigger] s[i].key.key_view() == k,
        |k: (Seq<char>, i32)|
            {
                let i = choose|i: int| 0 <= i < s.len() && #[trigger] s[i].key.key_view() == k;
                (s[i].programs@, s[i].cached_at)
            },
    )
}

proof fn lemma_entries_lookup(s: Seq<EpgCacheEntry>, i: int)
    requires
        entries_unique(s),
        0 <= i < s.len(),
    ensures
        entries_view(s).contains_key(s[i].key.key_view()),
        entries_view(s)[s[i].key.key_view()] == (s[i].programs@, s[i].cached_at),
{
    let k = s[i].key.key_view();
    assert(entries_view(s).contains_key(k));
    let c = choose|c: int| 0 <= c < s.len() && #[trigger] s[c].key.key_view() == k;
    if c != i {
        assert(s[c].key.key_view() != s[i].key.key_view());
    }
}

proof fn lemma_entries_absent(s: Seq<EpgCacheEntry>, k: (Seq<char>, i32))
    requires
        forall|i: int| 0 <= i < s.len() ==> #[trigger] s[i].key.key_view() != k,
    ensures
        !entries_view(s).contains_key(k),
{
}

impl View for EpgCache {
    type V = Map<(Seq<char>, i32), (Seq<Program>, u64)>;

    closed spec fn view(&self) -> Map<(Seq<char>, i32), (Seq<Program>, u64)> {
        entries_view(self.entries@)
    }
}

impl Default for EpgCache {
    fn default() -> (r: Self)
        ensures
            r@ == Map::<(Seq<char>, i32), (Seq<Program>, u64)>::empty(),
    {
        let r = EpgCache { entries: Vec::new() };
        assert(r@ =~= Map::<(Seq<char>, i32), (Seq<Program>, u64)>::empty());
        r
    }
}

fn same_key(a: &EpgCacheKey, b: &EpgCacheKey) -> (r: bool)
    ensures
        r == (a.key_view() == b.key_view()),
{
    a.date_offset == b.date_offset && a.channel_code == b.channel_code
}

/// The guide for `key` is cached and no older than `ttl_seconds` at `now`.
pub open spec fn epg_fresh(
    m: Map<(Seq<char>, i32), (Seq<Program>, u64)>,
    key: (Seq<char>, i32),
    ttl_seconds: u64,
    now: u64,
) -> bool {
    m.contains_key(key) && age(now, m[key].1) <= ttl_seconds
}

/// The guide response a cache gives for `key`: none while it holds none.
pub open spec fn epg_response_spec(
    m: Map<(Seq<char>, i32), (Seq<Program>, u64)>,
    key: (Seq<char>, i32),
    ttl_seconds: u64,
    stale: bool,
) -> Option<(Seq<Program>, CacheMeta)> {
    if m.contains_key(key) {
        Some((m[key].0, CacheMeta { stale, cached_at: m[key].1, ttl_seconds }))
    } else {
        None
    }
}

/// A guide stored for `key` at `now` is what the cache answers for `key`,
/// fresh exactly while no more than `ttl` seconds have passed; what it
/// answers for any other key is unchanged.
pub proof fn law_epg_cache_read_after_update(
    m: Map<(Seq<char>, i32), (Seq<Program>, u64)>,
    key: (Seq<char>, i32),
    programs: Seq<Program>,
    now: u64,
    ttl: u64,
    later: u64,
    other: (Seq<char>, i32),
)
    ensures
        ({
            let n = m.insert(key, (programs, now));
            &&& epg_response_spec(n, key, ttl, false) == Some(
                (programs, CacheMeta { stale: false, cached_at: now, ttl_seconds: ttl }),
            )
            &&& epg_fresh(n, key, ttl, later) <==> later - now <= ttl
            &&& other != key ==> epg_response_spec(n, other, ttl, false) == epg_response_spec(
                m,
                other,
                ttl,
                false,
            ) && epg_fresh(n, other, ttl, later) == epg_fresh(m, other, ttl, later)
        }),
{
}

impl EpgCache {
    /// No two entries hold the same key.
    #[verifier::type_invariant]
    spec fn well_formed(&self) -> bool {
        entries_unique(self.entries@)
    }

    fn position(&self, key: &EpgCacheKey) -> (r: Option<usize>)
        ensures
            match r {
                Some(i) => i < self.entries@.len() && self.entries@[i as int].key.key_view()
                    == key.key_view() && self@.contains_key(key.key_view()) && self@[key.key_view()]
                    == (self.entries@[i as int].programs@, self.entries@[i as int].cached_at),
                None => !self@.contains_key(key.key_view()),
            },
    {
        proof {
            use_type_invariant(self);
        }
        let mut i: usize = 0;
        while i < self.entries.len()
            invariant
                entries_unique(self.entries@),
                i <= self.entries@.len(),
                forall|j: int| 0 <= j < i ==> self.entries@[j].key.key_view() != key.key_view(),
            decreases self.entries@.len() - i,
        {
            if same_key(&self.entries[i].key, key) {
                proof {
                    lemma_entries_lookup(self.entries@, i as int);
                }
                return Some(i);
            }
            i = i + 1;
        }
        proof {
            lemma_entries_absent(self.entries@, key.key_view());
        }
        None
    }

    /// Whether the guide for `key` is cached and no older than `ttl_seconds`.
    pub fn is_fresh(&self, key: &EpgCacheKey, ttl_seconds: u64, now: u64) -> (r: bool)
        ensures
            r == epg_fresh(self@, key.key_view(), ttl_seconds, now),
    {
        match self.position(key) {
            Some(i) => {
                let cached_at = self.entries[i].cached_at;
                let age = if now >= cached_at {
                    now - cached_at
                } else {
                    0
                };
                age <= ttl_seconds
            },
            None => false,
        }
    }

    /// Stores the guide for `key`, replacing what was cached for it.
    pub fn update(&mut self, key: EpgCacheKey, programs: Vec<Program>, now: u64)
        ensures
            final(self)@ == old(self)@.insert(key.key_view(), (programs@, now)),
    {
        proof {
            use_type_invariant(&*self);
        }
        let ghost kv = key.key_view();
        let ghost pv = programs@;
        let ghost before = self.entries@;
        let pos = self.position(&key);
        let ghost at: int = match pos {
            Some(i) => i as int,
            None => self.entries@.len() as int,
        };
        let mut entries: Vec<EpgCacheEntry> = Vec::new();
        std::mem::swap(&mut entries, &mut self.entries);
        match pos {
            Some(i) => {
                entries[i] = EpgCacheEntry { key, programs, cached_at: now };
            },
            None => {
                entries.push(EpgCacheEntry { key, programs, cached_at: now });
            },
        }
        proof {
            let s = entries@;
            assert(s.len() == before.len() || s.len() == before.len() + 1);
            assert(s[at].key.key_view() == kv);
            assert forall|j: int| 0 <= j < s.len() && j != at implies #[trigger] s[j] == before[j] && before[j].key.key_view() != kv by {
                if pos is None {
                    assert(before[j].key.key_view() != kv);
                } else {
                    assert(before[j].key.key_view() != before[at].key.key_view());
                }
            }
            assert(entries_unique(s));
            lemma_entries_lookup(s, at);
            let target = entries_view(before).insert(kv, (pv, now));
            assert forall|k: (Seq<char>, i32)| #[trigger] entries_view(s).contains_key(k) == target.contains_key(k) by {
                if k != kv {
                    if entries_view(before).contains_key(k) {
                        let c = choose|c: int| 0 <= c < before.len() && #[trigger] before[c].key.key_view() == k;
                        assert(s[c] == before[c]);
                    }
                    if entries_view(s).contains_key(k) {
                        let c = choose|c: int| 0 <= c < s.len() && #[trigger] s[c].key.key_view() == k;
                        assert(before[c] == s[c]);
                    }
                }
            }
            assert forall|k: (Seq<char>, i32)| #[trigger] entries_view(s).contains_key(k) implies entries_view(s)[k] == target[k] by {
                if k != kv {
                    let c = choose|c: int| 0 <= c < s.len() && #[trigger] s[c].key.key_view() == k;
                    assert(before[c] == s[c]);
                    lemma_entries_lookup(s, c);
                    lemma_entries_lookup(before, c);
                }
            }
            assert(entries_view(s) =~= target);
        }
        self.entries = entries;
    }

    /// The cached guide for `key` with its metadata, if there is one.
    pub fn response(&self, key: &EpgCacheKey, ttl_seconds: u64, stale: bool) -> (r: Option<EpgResponse>)
        ensures
            match epg_response_spec(self@, key.key_view(), ttl_seconds, stale) {
                None => r is None,
                Some((data, meta)) => r matches Some(resp) && resp.data@ == data && resp.cache
                    == meta,
            },
    {
        let i = self.position(key)?;
        Some(
            EpgResponse {
                data: clone_programs(&self.entries[i].programs),
                cache: CacheMeta { stale, cached_at: self.entries[i].cached_at, ttl_seconds },
            },
        )
    }
}

} // verus!
