//! Local client tokens and secret hashing.
use vstd::prelude::*;
use vstd::slice::SliceAdditionalExecFns;
use vstd::utf8::{encode_utf8, encode_utf8_decode_utf8};

use crate::hex::{hex_of, lemma_hex_len, to_hex};
use crate::text::{
    char_is_alnum, char_to_lower, chars_of, dec, dec_chars, extend_chars, is_alnum, is_blank, lit,
    lemma_dec_injective, lemma_trim_blank, lower_char, seq_equal, string_of, trim, is_space,
};

verus! {

/// A named local API credential; only the hash of the raw token is kept.
#[derive(Debug, PartialEq, Eq)]
pub struct ClientToken {
    pub id: String,
    pub name: String,
    pub hash: String,
    pub created_at: u64,
    pub last_seen_at: Option<u64>,
    pub enabled: bool,
}

impl Clone for ClientToken {
    fn clone(&self) -> (r: Self)
        ensures
            r == *self,
    {
        ClientToken {
            id: self.id.clone(),
            name: self.name.clone(),
            hash: self.hash.clone(),
            created_at: self.created_at,
            last_seen_at: self.last_seen_at,
            enabled: self.enabled,
        }
    }
}

/// A copy of a token list.
pub fn clone_tokens(v: &Vec<ClientToken>) -> (r: Vec<ClientToken>)
    ensures
        r@ == v@,
{
    let mut out: Vec<ClientToken> = Vec::new();
    let mut i: usize = 0;
    while i < v.len()
        invariant
            i <= v@.len(),
            out@ == v@.take(i as int),
        decreases v@.len() - i,
    {
        out.push(v[i].clone());
        assert(v@.take(i as int + 1) =~= v@.take(i as int).push(v@[i as int]));
        i = i + 1;
    }
    assert(v@.take(v@.len() as int) =~= v@);
    out
}

/// The SHA-256 digest of a byte sequence.
pub uninterp spec fn sha256(data: Seq<u8>) -> Seq<u8>;

/// `sha2::Sha256::digest`: the 32-byte SHA-256 digest of `data`.
#[verifier::external_body]
fn sha256_digest(data: &[u8]) -> (r: Vec<u8>)
    ensures
        r@ == sha256(data@),
        r@.len() == 32,
{
    <sha2::Sha256 as sha2::Digest>::digest(data).to_vec()
}

/// The stored form of a secret: `sha256:` and the lower-case hex of the
/// SHA-256 digest of its UTF-8 bytes.
pub open spec fn secret_hash(secret: Seq<char>) -> Seq<char> {
    "sha256:"@ + hex_of(sha256(encode_utf8(secret)))
}

/// Hashes a secret into its stored form.
pub fn hash_secret(secret: &str) -> (r: String)
    ensures
        r@ == secret_hash(secret@),
{
    let digest = sha256_digest(secret.as_bytes());
    let hex = to_hex(digest.as_slice());
    let mut out = String::from_str("sha256:");
    out.append(hex.as_str());
    out
}

/// `secret` hashes to `expected_hash`.
pub open spec fn secret_matches(secret: Seq<char>, expected_hash: Seq<char>) -> bool {
    secret_hash(secret) == expected_hash
}

/// A secret verifies against the hash stored for it.
pub proof fn law_secret_verifies_against_its_hash(secret: Seq<char>)
    ensures
        secret_matches(secret, secret_hash(secret)),
{
}

/// Whether `secret` hashes to `expected_hash`.
pub fn verify_secret(secret: &str, expected_hash: &str) -> (r: bool)
    ensures
        r == secret_matches(secret@, expected_hash@),
{
    let hash = hash_secret(secret);
    let r = constant_time_eq(hash.as_str().as_bytes(), expected_hash.as_bytes());
    proof {
        encode_utf8_decode_utf8(hash@);
        encode_utf8_decode_utf8(expected_hash@);
    }
    r
}

/// Byte-wise equality that looks at every byte when the lengths agree.
fn constant_time_eq(a: &[u8], b: &[u8]) -> (r: bool)
    ensures
        r == (a@ == b@),
{
    if a.len() != b.len() {
        return false;
    }
    let mut diff: u8 = 0;
    let mut i: usize = 0;
    while i < a.len()
        invariant
            a@.len() == b@.len(),
            i <= a@.len(),
            (diff == 0) == (forall|j: int| 0 <= j < i ==> a@[j] == b@[j]),
        decreases a@.len() - i,
    {
        let x = a[i];
        let y = b[i];
        let d = diff;
        assert((d | (x ^ y)) == 0 <==> (d == 0 && x == y)) by (bit_vector);
        diff = diff | (x ^ y);
        i = i + 1;
    }
    proof {
        if diff == 0 {
            assert(a@ =~= b@);
        }
    }
    diff == 0
}

/// The current time in seconds since the Unix epoch (the clock of the
/// machine; nothing is promised of its value).
#[verifier::external_body]
pub fn now_secs() -> u64 {
    std::time::SystemTime::now().duration_since(std::time::UNIX_EPOCH).unwrap_or_default().as_secs()
}

/// Finds the first enabled token whose hash matches `raw`, records `now` as
/// its last-seen time, and returns it.
pub fn find_valid_token_at(tokens: &mut [ClientToken], raw: &str, now: u64) -> (r: Option<usize>)
    ensures
        final(tokens)@.len() == old(tokens)@.len(),
        match r {
            Some(i) => {
                &&& i < old(tokens)@.len()
                &&& old(tokens)@[i as int].enabled
                &&& old(tokens)@[i as int].hash@ == secret_hash(raw@)
                &&& forall|j: int|
                    0 <= j < i ==> !(old(tokens)@[j].enabled && old(tokens)@[j].hash@
                        == secret_hash(raw@))
                &&& final(tokens)@ == old(tokens)@.update(
                    i as int,
                    ClientToken { last_seen_at: Some(now), ..old(tokens)@[i as int] },
                )
            },
            None => {
                &&& final(tokens)@ == old(tokens)@
                &&& forall|j: int|
                    0 <= j < old(tokens)@.len() ==> !(old(tokens)@[j].enabled
                        && old(tokens)@[j].hash@ == secret_hash(raw@))
            },
        },
{
    let hash = hash_secret(raw);
    let mut i: usize = 0;
    while i < tokens.len()
        invariant
            tokens@ == old(tokens)@,
            i <= tokens@.len(),
            hash@ == secret_hash(raw@),
            forall|j: int|
                0 <= j < i ==> !(old(tokens)@[j].enabled && old(tokens)@[j].hash@ == secret_hash(
                    raw@,
                )),
        decreases tokens@.len() - i,
    {
        let matches = tokens[i].enabled && constant_time_eq(
            hash.as_str().as_bytes(),
            tokens[i].hash.as_str().as_bytes(),
        );
        proof {
            encode_utf8_decode_utf8(hash@);
            encode_utf8_decode_utf8(tokens@[i as int].hash@);
        }
        if matches {
            let mut t = tokens[i].clone();
            t.last_seen_at = Some(now);
            tokens[i] = t;
            return Some(i);
        }
        i = i + 1;
    }
    None
}

/// Finds the first enabled token whose hash matches `raw`, records the
/// current time as its last-seen time, and returns it.
pub fn find_valid_token<'a>(tokens: &'a mut [ClientToken], raw: &str) -> (r: Option<
    &'a ClientToken,
>)
    ensures
        final(tokens)@.len() == old(tokens)@.len(),
        match r {
            Some(t) => exists|i: int|
                0 <= i < old(tokens)@.len() && old(tokens)@[i].enabled && old(tokens)@[i].hash@
                    == secret_hash(raw@) && (forall|j: int|
                    0 <= j < i ==> !(old(tokens)@[j].enabled && old(tokens)@[j].hash@
                        == secret_hash(raw@))) && *t == final(tokens)@[i] && final(tokens)@[i]
                    == (ClientToken { last_seen_at: final(tokens)@[i].last_seen_at, ..old(tokens)@[i] })
                    && final(tokens)@[i].last_seen_at is Some && (forall|j: int|
                    0 <= j < old(tokens)@.len() && j != i ==> final(tokens)@[j]
                        == old(tokens)@[j]),
            None => {
                &&& final(tokens)@ == old(tokens)@
                &&& forall|j: int|
                    0 <= j < old(tokens)@.len() ==> !(old(tokens)@[j].enabled
                        && old(tokens)@[j].hash@ == secret_hash(raw@))
            },
        },
{
    let now = now_secs();
    match find_valid_token_at(tokens, raw, now) {
        Some(i) => Some(&tokens[i]),
        None => None,
    }
}

/// The characters that a token name keeps: ASCII letters, digits and `-`.
pub open spec fn keep_name_char(c: char) -> bool {
    is_alnum(c) || c == '-'
}

/// A name reduced to ASCII letters, digits and `-`, in lower case.
pub open spec fn sanitize_spec(name: Seq<char>) -> Seq<char>
    decreases name.len(),
{
    if name.len() == 0 {
        Seq::empty()
    } else if keep_name_char(name.last()) {
        sanitize_spec(name.drop_last()).push(lower_char(name.last()))
    } else {
        sanitize_spec(name.drop_last())
    }
}

fn sanitize_name(name: &str) -> (r: Vec<char>)
    ensures
        r@ == sanitize_spec(name@),
{
    let cs = chars_of(name);
    let mut out: Vec<char> = Vec::new();
    let mut i: usize = 0;
    while i < cs.len()
        invariant
            cs@ == name@,
            i <= cs@.len(),
            out@ == sanitize_spec(cs@.take(i as int)),
        decreases cs@.len() - i,
    {
        let c = cs[i];
        if char_is_alnum(c) || c == '-' {
            out.push(char_to_lower(c));
        }
        assert(cs@.take(i as int + 1).drop_last() =~= cs@.take(i as int));
        i = i + 1;
    }
    assert(cs@.take(cs@.len() as int) =~= cs@);
    out
}

/// The raw token issued for a client name, from 32 random bytes:
/// `atv_`, the sanitised name, `_`, and the hex of the bytes.
pub open spec fn token_spec(name: Seq<char>, random: Seq<u8>) -> Seq<char> {
    "atv_"@ + sanitize_spec(name) + "_"@ + hex_of(random)
}

/// Builds a new raw client token for `name` from 32 random bytes.
pub fn generate_token(name: &str, random: &[u8; 32]) -> (r: String)
    ensures
        r@ == token_spec(name@, random@),
{
    let mut out = lit("atv_");
    extend_chars(&mut out, sanitize_name(name).as_slice());
    extend_chars(&mut out, lit("_").as_slice());
    let hex = chars_of(to_hex(random.as_slice()).as_str());
    extend_chars(&mut out, hex.as_slice());
    string_of(out.as_slice())
}

/// A new token id from 16 random bytes: `tok_` and the hex of the bytes.
pub fn generate_token_id(random: &[u8; 16]) -> (r: String)
    ensures
        r@ == "tok_"@ + hex_of(random@),
{
    let mut out = String::from_str("tok_");
    out.append(to_hex(random.as_slice()).as_str());
    out
}

/// The id given to a stored token that has none: `legacy_` and the first
/// 16 hex digits of the SHA-256 of its hash.
pub open spec fn legacy_id_spec(hash: Seq<char>) -> Seq<char> {
    "legacy_"@ + hex_of(sha256(encode_utf8(hash))).take(16)
}

pub fn legacy_token_id(hash: &str) -> (r: Vec<char>)
    ensures
        r@ == legacy_id_spec(hash@),
{
    let digest = sha256_digest(hash.as_bytes());
    let hex = chars_of(to_hex(digest.as_slice()).as_str());
    proof {
        lemma_hex_len(digest@);
    }
    let mut out = lit("legacy_");
    extend_chars(&mut out, crate::text::slice_vec(hex.as_slice(), 0, 16).as_slice());
    out
}


/// The id a token starts from before duplicates are resolved: its own id,
/// or the legacy id derived from its hash when its id is blank.
pub open spec fn base_id(t: ClientToken) -> Seq<char> {
    if trim(t.id@).len() == 0 {
        legacy_id_spec(t.hash@)
    } else {
        t.id@
    }
}

/// The `k`-th alternative to an id already taken: `base_k`.
pub open spec fn candidate(base: Seq<char>, k: nat) -> Seq<char> {
    base + "_"@ + dec(k)
}

/// `id` is the id that a token with base id `base` receives when the ids in
/// `used` are taken: the base itself if it is free, else the first free
/// `base_k` with `k` counting from 2.
pub open spec fn chosen_id(base: Seq<char>, used: Seq<Seq<char>>, id: Seq<char>) -> bool {
    if !used.contains(base) {
        id == base
    } else {
        exists|k: nat|
            k >= 2 && id == candidate(base, k) && !used.contains(id) && forall|m: nat|
                2 <= m < k ==> used.contains(#[trigger] candidate(base, m))
    }
}

pub open spec fn ids_of(ts: Seq<ClientToken>) -> Seq<Seq<char>> {
    ts.map_values(|t: ClientToken| t.id@)
}

pub open spec fn chars_view(vs: Seq<Vec<char>>) -> Seq<Seq<char>> {
    vs.map_values(|v: Vec<char>| v@)
}

proof fn lemma_candidate_injective(base: Seq<char>, a: nat, b: nat)
    requires
        candidate(base, a) == candidate(base, b),
    ensures
        a == b,
{
    reveal_strlit("_");
    assert(candidate(base, a).skip(base.len() + 1int) =~= dec(a));
    assert(candidate(base, b).skip(base.len() + 1int) =~= dec(b));
    lemma_dec_injective(a, b);
}

spec fn cand_set(base: Seq<char>, m: nat) -> Set<Seq<char>>
    decreases m,
{
    if m <= 2 {
        Set::empty()
    } else {
        cand_set(base, (m - 1) as nat).insert(candidate(base, (m - 1) as nat))
    }
}

proof fn lemma_cand_set(base: Seq<char>, m: nat)
    ensures
        cand_set(base, m).finite(),
        cand_set(base, m).len() == if m <= 2 {
            0
        } else {
            m - 2
        },
        forall|x: Seq<char>|
            cand_set(base, m).contains(x) ==> exists|k: nat| 2 <= k < m && x == candidate(base, k),
    decreases m,
{
    if m > 2 {
        let p = (m - 1) as nat;
        lemma_cand_set(base, p);
        if cand_set(base, p).contains(candidate(base, p)) {
            let k = choose|k: nat| 2 <= k < p && candidate(base, p) == candidate(base, k);
            lemma_candidate_injective(base, p, k);
        }
    }
}

proof fn lemma_cand_subset(base: Seq<char>, used: Seq<Seq<char>>, m: nat)
    requires
        forall|k: nat| 2 <= k < m ==> used.contains(#[trigger] candidate(base, k)),
    ensures
        cand_set(base, m).subset_of(used.to_set()),
    decreases m,
{
    if m > 2 {
        lemma_cand_subset(base, used, (m - 1) as nat);
        assert(used.contains(candidate(base, (m - 1) as nat)));
    }
}

/// When every `base_k` for `2 <= k < m` is taken, at least `m - 2` ids are.
proof fn lemma_pigeonhole(base: Seq<char>, used: Seq<Seq<char>>, m: nat)
    requires
        m >= 2,
        forall|k: nat| 2 <= k < m ==> used.contains(#[trigger] candidate(base, k)),
    ensures
        m - 2 <= used.len(),
{
    lemma_cand_set(base, m);
    lemma_cand_subset(base, used, m);
    vstd::seq_lib::seq_to_set_is_finite(used);
    vstd::set_lib::lemma_len_subset(cand_set(base, m), used.to_set());
    used.lemma_cardinality_of_set();
}

fn contains_id(used: &Vec<Vec<char>>, x: &[char]) -> (r: bool)
    ensures
        r == chars_view(used@).contains(x@),
{
    let mut i: usize = 0;
    while i < used.len()
        invariant
            i <= used@.len(),
            forall|j: int| 0 <= j < i ==> used@[j]@ != x@,
        decreases used@.len() - i,
    {
        if seq_equal(used[i].as_slice(), x) {
            assert(chars_view(used@)[i as int] == x@);
            return true;
        }
        i = i + 1;
    }
    proof {
        if chars_view(used@).contains(x@) {
            let j = choose|j: int| 0 <= j < chars_view(used@).len() && chars_view(used@)[j] == x@;
            assert(used@[j]@ == x@);
        }
    }
    false
}

/// `after` is `before` with normalized ids: only the ids change, each token
/// gets the id chosen from its base id and the ids given before it, and no
/// two ids are the same.
pub open spec fn ids_normalized(before: Seq<ClientToken>, after: Seq<ClientToken>) -> bool {
    &&& after.len() == before.len()
    &&& forall|i: int|
        0 <= i < before.len() ==> #[trigger] after[i] == (ClientToken { id: after[i].id, ..before[i] })
    &&& forall|i: int|
        0 <= i < before.len() ==> chosen_id(
            base_id(before[i]),
            ids_of(after).take(i),
            #[trigger] after[i].id@,
        )
    &&& ids_of(after).no_duplicates()
}

/// An id chosen for a token is never blank.
proof fn lemma_chosen_not_blank(t: ClientToken, used: Seq<Seq<char>>, id: Seq<char>)
    requires
        chosen_id(base_id(t), used, id),
    ensures
        trim(id).len() > 0,
{
    let base = base_id(t);
    if trim(t.id@).len() == 0 {
        reveal_strlit("legacy_");
        assert(base[0] == 'l');
    }
    lemma_trim_blank(t.id@);
    lemma_trim_blank(base);
    let i = choose|i: int| 0 <= i < base.len() && !is_space(#[trigger] base[i]);
    if used.contains(base) {
        let k = choose|k: nat|
            k >= 2 && id == candidate(base, k) && !used.contains(id) && forall|m: nat|
                2 <= m < k ==> used.contains(#[trigger] candidate(base, m));
        assert(id[i] == base[i]);
    }
    lemma_trim_blank(id);
}

/// Ids that are distinct and not blank are kept by a normalization, up to
/// token `i`.
proof fn lemma_good_ids_kept_prefix(b: Seq<ClientToken>, c: Seq<ClientToken>, i: int)
    requires
        ids_normalized(b, c),
        forall|k: int| 0 <= k < b.len() ==> trim((#[trigger] b[k]).id@).len() > 0,
        ids_of(b).no_duplicates(),
        0 <= i < b.len(),
    ensures
        forall|j: int| 0 <= j <= i ==> (#[trigger] c[j]).id@ == b[j].id@,
    decreases i,
{
    if i > 0 {
        lemma_good_ids_kept_prefix(b, c, i - 1);
    }
    assert(ids_of(c).take(i) =~= ids_of(b).take(i));
    assert(trim(b[i].id@).len() > 0);
    assert(base_id(b[i]) == b[i].id@);
    assert(!ids_of(b).take(i).contains(b[i].id@)) by {
        if ids_of(b).take(i).contains(b[i].id@) {
            let j = choose|j: int| 0 <= j < i && ids_of(b).take(i)[j] == b[i].id@;
            assert(ids_of(b)[j] == ids_of(b)[i]);
        }
    }
}

/// After normalizing, no id is blank and no two ids are the same; when the
/// ids were already distinct and none was blank, every id is kept.
pub proof fn law_normalized_ids(before: Seq<ClientToken>, after: Seq<ClientToken>)
    requires
        ids_normalized(before, after),
    ensures
        forall|i: int| 0 <= i < after.len() ==> trim((#[trigger] after[i]).id@).len() > 0,
        ids_of(after).no_duplicates(),
        ((forall|i: int| 0 <= i < before.len() ==> trim((#[trigger] before[i]).id@).len() > 0)
            && ids_of(before).no_duplicates()) ==> ids_of(after) == ids_of(before),
{
    assert forall|i: int| 0 <= i < after.len() implies trim((#[trigger] after[i]).id@).len() > 0 by {
        lemma_chosen_not_blank(before[i], ids_of(after).take(i), after[i].id@);
    }
    if (forall|i: int| 0 <= i < before.len() ==> trim((#[trigger] before[i]).id@).len() > 0)
        && ids_of(before).no_duplicates() {
        if before.len() > 0 {
            lemma_good_ids_kept_prefix(before, after, before.len() - 1);
        }
        assert(ids_of(after) =~= ids_of(before));
    }
}

/// Normalizing ids a second time keeps every id: the ids given to tokens
/// when a configuration is loaded are the ones it is loaded with next time.
pub proof fn law_normalize_twice_keeps_ids(
    a: Seq<ClientToken>,
    b: Seq<ClientToken>,
    c: Seq<ClientToken>,
)
    requires
        ids_normalized(a, b),
        ids_normalized(b, c),
    ensures
        ids_of(c) == ids_of(b),
        forall|i: int| 0 <= i < c.len() ==> #[trigger] c[i] == (ClientToken { id: c[i].id, ..b[i] }),
{
    law_normalized_ids(a, b);
    law_normalized_ids(b, c);
}

/// Gives every token an id and makes the ids distinct: a blank id becomes
/// the legacy id of the token's hash, and an id already given to an earlier
/// token becomes the first free `id_k`, `k` counting from 2.
pub fn normalize_token_ids(tokens: &mut [ClientToken])
    ensures
        ids_normalized(old(tokens)@, final(tokens)@),
{
    let mut used: Vec<Vec<char>> = Vec::new();
    let mut i: usize = 0;
    while i < tokens.len()
        invariant
            i <= tokens@.len(),
            tokens@.len() == old(tokens)@.len(),
            chars_view(used@) == ids_of(tokens@).take(i as int),
            chars_view(used@).no_duplicates(),
            forall|j: int|
                0 <= j < i ==> #[trigger] tokens@[j] == (ClientToken {
                    id: tokens@[j].id,
                    ..old(tokens)@[j]
                }),
            forall|j: int| i <= j < tokens@.len() ==> #[trigger] tokens@[j] == old(tokens)@[j],
            forall|j: int|
                0 <= j < i ==> chosen_id(
                    base_id(old(tokens)@[j]),
                    ids_of(tokens@).take(j),
                    #[trigger] tokens@[j].id@,
                ),
        decreases tokens@.len() - i,
    {
        let id_chars = chars_of(tokens[i].id.as_str());
        let base: Vec<char> = if is_blank(id_chars.as_slice()) {
            legacy_token_id(tokens[i].hash.as_str())
        } else {
            id_chars
        };
        assert(base@ == base_id(old(tokens)@[i as int]));
        let ghost used_v = chars_view(used@);
        let chosen: Vec<char> = if !contains_id(&used, base.as_slice()) {
            base
        } else {
            let mut suffix: u128 = 2;
            let mut found: Option<Vec<char>> = None;
            while found.is_none()
                invariant
                    used_v == chars_view(used@),
                    used_v.contains(base@),
                    2 <= suffix,
                    forall|m: nat| 2 <= m < suffix ==> used_v.contains(#[trigger] candidate(base@, m)),
                    suffix - 2 <= used_v.len(),
                    used_v.len() <= usize::MAX,
                    found matches Some(c) ==> (c@ == candidate(base@, suffix as nat)
                        && !used_v.contains(c@)),
                decreases used_v.len() + 2 - suffix, if found is None { 1int } else { 0int },
            {
                let mut cand = base.clone();
                assert(cand@ == base@);
                extend_chars(&mut cand, lit("_").as_slice());
                extend_chars(&mut cand, dec_chars(suffix).as_slice());
                if contains_id(&used, cand.as_slice()) {
                    proof {
                        lemma_pigeonhole(base@, used_v, (suffix + 1) as nat);
                    }
                    suffix = suffix + 1;
                } else {
                    found = Some(cand);
                }
            }
            match found {
                Some(c) => c,
                None => base,
            }
        };
        assert(chosen_id(base@, used_v, chosen@));
        let mut t = tokens[i].clone();
        t.id = string_of(chosen.as_slice());
        tokens[i] = t;
        proof {
            assert(ids_of(tokens@).take(i as int) =~= used_v);
            assert(ids_of(tokens@).take(i as int + 1) =~= used_v.push(chosen@));
        }
        used.push(chosen);
        assert(chars_view(used@) =~= used_v.push(chosen@));
        i = i + 1;
    }
    assert(ids_of(tokens@).take(tokens@.len() as int) =~= ids_of(tokens@));
}

/// The id given when a configuration is loaded to a stored token that has
/// none: `tok_` and the first 32 hex digits of the SHA-256 of its hash, so a
/// configuration loaded again gives it the same id.
pub open spec fn backfilled_id_spec(hash: Seq<char>) -> Seq<char> {
    "tok_"@ + hex_of(sha256(encode_utf8(hash))).take(32)
}

fn backfilled_token_id(hash: &str) -> (r: Vec<char>)
    ensures
        r@ == backfilled_id_spec(hash@),
{
    let digest = sha256_digest(hash.as_bytes());
    let hex = chars_of(to_hex(digest.as_slice()).as_str());
    proof {
        lemma_hex_len(digest@);
    }
    let mut out = lit("tok_");
    extend_chars(&mut out, crate::text::slice_vec(hex.as_slice(), 0, 32).as_slice());
    out
}

/// The id a token starts from when a configuration is loaded: its own id,
/// or the `tok_` id derived from its hash when its id is blank.
pub open spec fn load_base_id(t: ClientToken) -> Seq<char> {
    if trim(t.id@).len() == 0 {
        backfilled_id_spec(t.hash@)
    } else {
        t.id@
    }
}

/// `after` is `before` with the ids a load gives: only the ids change, each
/// token gets the id chosen from its load base id and the ids given before
/// it, and no two ids are the same.
pub open spec fn ids_loaded(before: Seq<ClientToken>, after: Seq<ClientToken>) -> bool {
    &&& after.len() == before.len()
    &&& forall|i: int|
        0 <= i < before.len() ==> #[trigger] after[i] == (ClientToken { id: after[i].id, ..before[i] })
    &&& forall|i: int|
        0 <= i < before.len() ==> chosen_id(
            load_base_id(before[i]),
            ids_of(after).take(i),
            #[trigger] after[i].id@,
        )
    &&& ids_of(after).no_duplicates()
}

fn backfill_token_ids(tokens: &mut [ClientToken])
    ensures
        final(tokens)@.len() == old(tokens)@.len(),
        forall|i: int|
            0 <= i < old(tokens)@.len() ==> #[trigger] final(tokens)@[i] == (ClientToken {
                id: final(tokens)@[i].id,
                ..old(tokens)@[i]
            }) && final(tokens)@[i].id@ == load_base_id(old(tokens)@[i]),
{
    let mut i: usize = 0;
    while i < tokens.len()
        invariant
            i <= tokens@.len(),
            tokens@.len() == old(tokens)@.len(),
            forall|j: int|
                0 <= j < i ==> #[trigger] tokens@[j] == (ClientToken {
                    id: tokens@[j].id,
                    ..old(tokens)@[j]
                }) && tokens@[j].id@ == load_base_id(old(tokens)@[j]),
            forall|j: int| i <= j < tokens@.len() ==> #[trigger] tokens@[j] == old(tokens)@[j],
        decreases tokens@.len() - i,
    {
        let id_chars = chars_of(tokens[i].id.as_str());
        if is_blank(id_chars.as_slice()) {
            let id = backfilled_token_id(tokens[i].hash.as_str());
            let mut t = tokens[i].clone();
            t.id = string_of(id.as_slice());
            tokens[i] = t;
        }
        i = i + 1;
    }
}

/// A load id is never blank.
proof fn lemma_load_base_not_blank(t: ClientToken)
    ensures
        trim(load_base_id(t)).len() > 0,
{
    if trim(t.id@).len() == 0 {
        reveal_strlit("tok_");
        assert(load_base_id(t)[0] == 't');
        lemma_trim_blank(load_base_id(t));
    }
}

/// Gives the tokens of a configuration just loaded their ids: a blank id
/// becomes the `tok_` id derived from the token's hash, and an id already
/// given to an earlier token becomes the first free `id_k`, `k` counting
/// from 2.
pub fn load_token_ids(tokens: &mut [ClientToken])
    ensures
        ids_loaded(old(tokens)@, final(tokens)@),
{
    let ghost before = tokens@;
    backfill_token_ids(tokens);
    let ghost mid = tokens@;
    normalize_token_ids(tokens);
    proof {
        assert forall|i: int| 0 <= i < before.len() implies base_id(mid[i]) == load_base_id(
            before[i],
        ) by {
            lemma_load_base_not_blank(before[i]);
            assert(mid[i].id@ == load_base_id(before[i]));
        }
        assert forall|i: int| 0 <= i < before.len() implies #[trigger] tokens@[i] == (ClientToken {
            id: tokens@[i].id,
            ..before[i]
        }) by {
            assert(tokens@[i] == (ClientToken { id: tokens@[i].id, ..mid[i] }));
            assert(mid[i] == (ClientToken { id: mid[i].id, ..before[i] }));
        }
        assert forall|i: int| 0 <= i < before.len() implies chosen_id(
            load_base_id(before[i]),
            ids_of(tokens@).take(i),
            #[trigger] tokens@[i].id@,
        ) by {
            assert(base_id(mid[i]) == load_base_id(before[i])) by {
                lemma_load_base_not_blank(before[i]);
                assert(mid[i].id@ == load_base_id(before[i]));
            }
        }
    }
}

} // verus!
