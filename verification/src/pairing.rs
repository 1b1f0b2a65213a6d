//! Device pairing: a TV asks for a session, the admin approves or rejects it
//! by its six-digit code, and the TV polls until it gets its token.
use vstd::prelude::*;

use crate::auth::{hash_secret, secret_hash, verify_secret};
use crate::hex::{hex_of, to_hex};
use crate::text::{
    char_from_ascii_code, char_is_digit, chars_of, is_digit, seq_equal, slice_vec, string_of,
    trim, trim_str,
};

verus! {

broadcast use vstd::seq_lib::group_to_multiset_ensures;

/// How long a pairing session lives.
pub const SESSION_TTL_SECONDS: u64 = 300;

/// How often a TV is told to poll.
pub const POLL_INTERVAL_SECONDS: u64 = 2;

/// Where a pairing session stands.
#[derive(Debug)]
pub enum StoredPairingStatus {
    Pending,
    Approved { access_token: String },
    Rejected,
}

impl StoredPairingStatus {
    fn clone_status(&self) -> (r: Self)
        ensures
            r == *self,
    {
        match self {
            StoredPairingStatus::Pending => StoredPairingStatus::Pending,
            StoredPairingStatus::Approved { access_token } => StoredPairingStatus::Approved {
                access_token: access_token.clone(),
            },
            StoredPairingStatus::Rejected => StoredPairingStatus::Rejected,
        }
    }
}

#[derive(Debug)]
struct PairingSession {
    session_id: String,
    pairing_code: String,
    device_name: String,
    device_type: String,
    app_id: String,
    app_version: String,
    client_nonce_hash: String,
    created_at: u64,
    expires_at: u64,
    status: StoredPairingStatus,
}

/// What the store knows of one session.
pub ghost struct SessionView {
    pub session_id: Seq<char>,
    pub pairing_code: Seq<char>,
    pub device_name: Seq<char>,
    pub device_type: Seq<char>,
    pub app_id: Seq<char>,
    pub app_version: Seq<char>,
    pub client_nonce_hash: Seq<char>,
    pub created_at: u64,
    pub expires_at: u64,
    pub status: StoredPairingStatus,
}

spec fn session_view(s: PairingSession) -> SessionView {
    SessionView {
        session_id: s.session_id@,
        pairing_code: s.pairing_code@,
        device_name: s.device_name@,
        device_type: s.device_type@,
        app_id: s.app_id@,
        app_version: s.app_version@,
        client_nonce_hash: s.client_nonce_hash@,
        created_at: s.created_at,
        expires_at: s.expires_at,
        status: s.status,
    }
}

spec fn sessions_view(s: Seq<PairingSession>) -> Seq<SessionView>
    decreases s.len(),
{
    if s.len() == 0 {
        Seq::empty()
    } else {
        sessions_view(s.drop_last()).push(session_view(s.last()))
    }
}

proof fn lemma_sessions_view(s: Seq<PairingSession>)
    ensures
        sessions_view(s).len() == s.len(),
        forall|i: int| 0 <= i < s.len() ==> #[trigger] sessions_view(s)[i] == session_view(s[i]),
    decreases s.len(),
{
    if s.len() > 0 {
        lemma_sessions_view(s.drop_last());
    }
}

/// No two sessions share an id.
pub open spec fn ids_unique(v: Seq<SessionView>) -> bool {
    forall|i: int, j: int|
        0 <= i < v.len() && 0 <= j < v.len() && i != j ==> #[trigger] v[i].session_id
            != #[trigger] v[j].session_id
}

pub open spec fn is_pending(s: SessionView) -> bool {
    s.status is Pending
}

/// The sessions that have not expired at `now`, in order.
pub open spec fn prune_spec(v: Seq<SessionView>, now: u64) -> Seq<SessionView>
    decreases v.len(),
{
    if v.len() == 0 {
        Seq::empty()
    } else if now <= v.last().expires_at {
        prune_spec(v.drop_last(), now).push(v.last())
    } else {
        prune_spec(v.drop_last(), now)
    }
}

/// The first index of the session with the given id.
pub open spec fn index_of_id(v: Seq<SessionView>, id: Seq<char>) -> Option<int>
    decreases v.len(),
{
    if v.len() == 0 {
        None
    } else if v[0].session_id == id {
        Some(0)
    } else {
        match index_of_id(v.drop_first(), id) {
            Some(i) => Some(i + 1),
            None => None,
        }
    }
}

/// The first index of a session with the given pairing code.
pub open spec fn index_of_code(v: Seq<SessionView>, code: Seq<char>) -> Option<int>
    decreases v.len(),
{
    if v.len() == 0 {
        None
    } else if v[0].pairing_code == code {
        Some(0)
    } else {
        match index_of_code(v.drop_first(), code) {
            Some(i) => Some(i + 1),
            None => None,
        }
    }
}

/// The first index of a pending session with the given pairing code.
pub open spec fn index_of_pending_code(v: Seq<SessionView>, code: Seq<char>) -> Option<int>
    decreases v.len(),
{
    if v.len() == 0 {
        None
    } else if v[0].pairing_code == code && is_pending(v[0]) {
        Some(0)
    } else {
        match index_of_pending_code(v.drop_first(), code) {
            Some(i) => Some(i + 1),
            None => None,
        }
    }
}

/// The session that an approval or a rejection by code acts on: the pending
/// session with that code, else the first session holding it.
pub open spec fn decision_index(v: Seq<SessionView>, code: Seq<char>) -> Option<int> {
    match index_of_pending_code(v, code) {
        Some(i) => Some(i),
        None => index_of_code(v, code),
    }
}

pub proof fn lemma_index_of_pending_code(v: Seq<SessionView>, code: Seq<char>)
    ensures
        index_of_pending_code(v, code) matches Some(i) ==> 0 <= i < v.len() && v[i].pairing_code
            == code && is_pending(v[i]) && forall|j: int|
            0 <= j < i ==> !(#[trigger] v[j].pairing_code == code && is_pending(v[j])),
        index_of_pending_code(v, code) is None ==> forall|j: int|
            0 <= j < v.len() ==> !(#[trigger] v[j].pairing_code == code && is_pending(v[j])),
    decreases v.len(),
{
    if v.len() > 0 {
        lemma_index_of_pending_code(v.drop_first(), code);
        assert forall|j: int| 1 <= j < v.len() implies #[trigger] v[j] == v.drop_first()[j - 1] by {}
    }
}

pub proof fn lemma_index_of_id(v: Seq<SessionView>, id: Seq<char>)
    ensures
        index_of_id(v, id) matches Some(i) ==> 0 <= i < v.len() && v[i].session_id == id && forall|
            j: int,
        |
            0 <= j < i ==> #[trigger] v[j].session_id != id,
        index_of_id(v, id) is None ==> forall|j: int| 0 <= j < v.len() ==> #[trigger] v[j].session_id != id,
    decreases v.len(),
{
    if v.len() > 0 {
        lemma_index_of_id(v.drop_first(), id);
        assert forall|j: int| 1 <= j < v.len() implies #[trigger] v[j] == v.drop_first()[j - 1] by {}
    }
}

pub proof fn lemma_index_of_code(v: Seq<SessionView>, code: Seq<char>)
    ensures
        index_of_code(v, code) matches Some(i) ==> 0 <= i < v.len() && v[i].pairing_code == code
            && forall|j: int| 0 <= j < i ==> #[trigger] v[j].pairing_code != code,
        index_of_code(v, code) is None ==> forall|j: int|
            0 <= j < v.len() ==> #[trigger] v[j].pairing_code != code,
    decreases v.len(),
{
    if v.len() > 0 {
        lemma_index_of_code(v.drop_first(), code);
        assert forall|j: int| 1 <= j < v.len() implies #[trigger] v[j] == v.drop_first()[j - 1] by {}
    }
}

/// The pairing sessions of this process, kept in the order they were made.
#[derive(Debug)]
pub struct PairingStore {
    sessions: Vec<PairingSession>,
}

impl View for PairingStore {
    type V = Seq<SessionView>;

    closed spec fn view(&self) -> Seq<SessionView> {
        sessions_view(self.sessions@)
    }
}

impl Default for PairingStore {
    fn default() -> (r: Self)
        ensures
            r@ == Seq::<SessionView>::empty(),
    {
        PairingStore { sessions: Vec::new() }
    }
}

// ---------------------------------------------------------------------------
// Requests, responses and errors
// ---------------------------------------------------------------------------

#[derive(Debug)]
pub struct CreatePairingRequest {
    pub device_name: Option<String>,
    pub device_type: Option<String>,
    pub app_id: Option<String>,
    pub app_version: Option<String>,
    pub client_nonce: String,
}

#[derive(Debug)]
pub struct CreatePairingResponse {
    pub session_id: String,
    pub pairing_code: String,
    pub expires_at: u64,
    pub poll_interval_seconds: u64,
}

#[derive(Debug)]
pub struct PollPairingResponse {
    pub status: &'static str,
    pub expires_at: Option<u64>,
    pub poll_interval_seconds: Option<u64>,
    pub access_token: Option<String>,
    pub token_type: Option<&'static str>,
}

#[derive(Debug)]
pub struct PendingPairingSessionsResponse {
    pub data: Vec<PendingPairingSession>,
}

#[derive(Debug)]
pub struct PendingPairingSession {
    pub session_id: String,
    pub pairing_code: String,
    pub device_name: String,
    pub device_type: String,
    pub app_id: String,
    pub app_version: String,
    pub created_at: u64,
    pub expires_at: u64,
}

#[derive(Debug)]
pub struct ApprovePairingRequest {
    pub pairing_code: String,
    pub device_label: Option<String>,
}

#[derive(Debug)]
pub struct RejectPairingRequest {
    pub pairing_code: String,
}

#[derive(Debug)]
pub struct PairingDecisionResponse {
    pub status: &'static str,
    pub client_id: Option<String>,
}

#[derive(Debug, PartialEq, Eq)]
pub struct PairingApprovalCandidate {
    pub session_id: String,
    pub token_name: String,
}

/// An error answered to a pairing request: HTTP status, stable code and
/// message.
#[derive(Debug, PartialEq, Eq)]
pub struct PairingError {
    pub status: u16,
    pub code: &'static str,
    pub message: &'static str,
}

pub open spec fn is_error(e: PairingError, status: u16, code: Seq<char>, message: Seq<char>) -> bool {
    e.status == status && e.code@ == code && e.message@ == message
}

impl PollPairingResponse {
    fn expired() -> (r: Self)
        ensures
            r.status@ == "expired"@,
            r.expires_at is None,
            r.poll_interval_seconds is None,
            r.access_token is None,
            r.token_type is None,
    {
        PollPairingResponse {
            status: "expired",
            expires_at: None,
            poll_interval_seconds: None,
            access_token: None,
            token_type: None,
        }
    }
}

impl PairingError {
    fn bad_request(code: &'static str, message: &'static str) -> (r: Self)
        ensures
            r == (PairingError { status: 400, code, message }),
    {
        PairingError { status: 400, code, message }
    }

    fn unauthorized(code: &'static str, message: &'static str) -> (r: Self)
        ensures
            r == (PairingError { status: 401, code, message }),
    {
        PairingError { status: 401, code, message }
    }

    fn not_found(code: &'static str, message: &'static str) -> (r: Self)
        ensures
            r == (PairingError { status: 404, code, message }),
    {
        PairingError { status: 404, code, message }
    }

    fn conflict(code: &'static str, message: &'static str) -> (r: Self)
        ensures
            r == (PairingError { status: 409, code, message }),
    {
        PairingError { status: 409, code, message }
    }

    fn internal(code: &'static str, message: &'static str) -> (r: Self)
        ensures
            r == (PairingError { status: 500, code, message }),
    {
        PairingError { status: 500, code, message }
    }
}

// ---------------------------------------------------------------------------
// Labels and codes
// ---------------------------------------------------------------------------

/// A label trimmed and cut to its first 80 characters; none if blank.
pub open spec fn clean_label_spec(value: Option<Seq<char>>) -> Option<Seq<char>> {
    match value {
        None => None,
        Some(v) => if trim(v).len() == 0 {
            None
        } else if trim(v).len() <= 80 {
            Some(trim(v))
        } else {
            Some(trim(v).take(80))
        },
    }
}

pub open spec fn opt_str_view(o: Option<String>) -> Option<Seq<char>> {
    match o {
        Some(s) => Some(s@),
        None => None,
    }
}

pub open spec fn opt_ref_view(o: Option<&str>) -> Option<Seq<char>> {
    match o {
        Some(s) => Some(s@),
        None => None,
    }
}

fn clean_label(value: Option<&str>) -> (r: Option<Vec<char>>)
    ensures
        match clean_label_spec(opt_ref_view(value)) {
            None => r is None,
            Some(v) => r matches Some(x) && x@ == v,
        },
{
    match value {
        None => None,
        Some(v) => {
            let t = trim_str(v);
            if t.len() == 0 {
                None
            } else if t.len() <= 80 {
                Some(t)
            } else {
                Some(slice_vec(t.as_slice(), 0, 80))
            }
        },
    }
}

/// The digits of a typed pairing code, in order.
pub open spec fn digits_only(s: Seq<char>) -> Seq<char>
    decreases s.len(),
{
    if s.len() == 0 {
        Seq::empty()
    } else if is_digit(s.last()) {
        digits_only(s.drop_last()).push(s.last())
    } else {
        digits_only(s.drop_last())
    }
}

fn normalize_pairing_code(value: &str) -> (r: Vec<char>)
    ensures
        r@ == digits_only(value@),
{
    let cs = chars_of(value);
    let mut out: Vec<char> = Vec::new();
    let mut i: usize = 0;
    while i < cs.len()
        invariant
            cs@ == value@,
            i <= cs@.len(),
            out@ == digits_only(cs@.take(i as int)),
        decreases cs@.len() - i,
    {
        if char_is_digit(cs[i]) {
            out.push(cs[i]);
        }
        assert(cs@.take(i as int + 1).drop_last() =~= cs@.take(i as int));
        i = i + 1;
    }
    assert(cs@.take(cs@.len() as int) =~= cs@);
    out
}

/// The big-endian value of four bytes.
pub open spec fn be_u32(b: Seq<u8>) -> int {
    b[0] * 16777216 + b[1] * 65536 + b[2] * 256 + b[3]
}

pub open spec fn digit_of(v: int) -> char {
    (48 + v) as char
}

/// `v` written with exactly six digits, zeros in front.
pub open spec fn six_digits(v: int) -> Seq<char> {
    seq![
        digit_of(v / 100000 % 10),
        digit_of(v / 10000 % 10),
        digit_of(v / 1000 % 10),
        digit_of(v / 100 % 10),
        digit_of(v / 10 % 10),
        digit_of(v % 10),
    ]
}

/// The pairing code drawn from four random bytes.
pub open spec fn code_of(b: Seq<u8>) -> Seq<char> {
    six_digits(be_u32(b) % 1000000)
}

/// The session id drawn from sixteen random bytes.
pub open spec fn session_id_of(b: Seq<u8>) -> Seq<char> {
    "ps_"@ + hex_of(b)
}

fn pairing_code_from(b: &[u8]) -> (r: Vec<char>)
    requires
        b@.len() == 4,
    ensures
        r@ == code_of(b@),
{
    let v: u32 = (b[0] as u32) * 16777216 + (b[1] as u32) * 65536 + (b[2] as u32) * 256 + (
    b[3] as u32);
    let value: u32 = v % 1000000;
    let mut out: Vec<char> = Vec::new();
    out.push(char_from_ascii_code(48 + value / 100000 % 10));
    out.push(char_from_ascii_code(48 + value / 10000 % 10));
    out.push(char_from_ascii_code(48 + value / 1000 % 10));
    out.push(char_from_ascii_code(48 + value / 100 % 10));
    out.push(char_from_ascii_code(48 + value / 10 % 10));
    out.push(char_from_ascii_code(48 + value % 10));
    assert(out@ =~= code_of(b@));
    out
}

// ---------------------------------------------------------------------------
// Randomness handed in by the caller
// ---------------------------------------------------------------------------

/// Random bytes read from the system's random source, consumed in order.
#[derive(Debug)]
pub struct Entropy {
    bytes: Vec<u8>,
    pos: usize,
}

impl Entropy {
    #[verifier::type_invariant]
    spec fn pos_in_range(&self) -> bool {
        self.pos <= self.bytes@.len()
    }

    /// The bytes not consumed yet.
    pub closed spec fn remaining(&self) -> Seq<u8> {
        self.bytes@.skip(self.pos as int)
    }

    /// A source that hands out `bytes`, in order.
    pub fn new(bytes: Vec<u8>) -> (r: Self)
        ensures
            r.remaining() == bytes@,
    {
        let r = Entropy { bytes, pos: 0 };
        assert(r.bytes@.skip(0) =~= r.bytes@);
        r
    }

    /// The next `n` bytes, or `None` when fewer are left.
    fn take(&mut self, n: usize) -> (r: Option<Vec<u8>>)
        ensures
            old(self).remaining().len() >= n ==> (r matches Some(b) && b@ == old(
                self,
            ).remaining().take(n as int) && final(self).remaining() == old(self).remaining().skip(
                n as int,
            )),
            old(self).remaining().len() < n ==> r is None && final(self).remaining() == old(
                self,
            ).remaining(),
    {
        proof {
            use_type_invariant(&*self);
        }
        if n > self.bytes.len() - self.pos {
            return None;
        }
        let out = slice_vec_u8(self.bytes.as_slice(), self.pos, self.pos + n);
        proof {
            assert(out@ =~= self.bytes@.skip(self.pos as int).take(n as int));
            assert(self.bytes@.skip(self.pos + n) =~= self.bytes@.skip(self.pos as int).skip(
                n as int,
            ));
        }
        self.pos = self.pos + n;
        Some(out)
    }
}

fn slice_vec_u8(b: &[u8], start: usize, end: usize) -> (out: Vec<u8>)
    requires
        start <= end <= b@.len(),
    ensures
        out@ == b@.subrange(start as int, end as int),
{
    let mut out: Vec<u8> = Vec::new();
    let mut i: usize = start;
    while i < end
        invariant
            start <= i <= end <= b@.len(),
            out@ == b@.subrange(start as int, i as int),
        decreases end - i,
    {
        out.push(b[i]);
        assert(b@.subrange(start as int, i as int + 1) == b@.subrange(start as int, i as int).push(
            b@[i as int],
        ));
        i = i + 1;
    }
    out
}

/// Why drawing an id or a code failed.
pub enum DrawFailure {
    /// The random bytes ran out.
    RandomUnavailable,
    /// Every attempt collided.
    Exhausted,
}

pub open spec fn has_id(v: Seq<SessionView>, id: Seq<char>) -> bool {
    exists|i: int| 0 <= i < v.len() && #[trigger] v[i].session_id == id
}

pub open spec fn code_in_use(v: Seq<SessionView>, code: Seq<char>) -> bool {
    exists|i: int| 0 <= i < v.len() && #[trigger] v[i].pairing_code == code && is_pending(v[i])
}

/// The session id drawn with at most `tries` attempts from `bytes`, and the
/// bytes left afterwards: the first `ps_<hex>` of sixteen bytes that no
/// session in `v` has.
pub open spec fn draw_session_id(v: Seq<SessionView>, bytes: Seq<u8>, tries: nat) -> Result<
    (Seq<char>, Seq<u8>),
    DrawFailure,
>
    decreases tries,
{
    if tries == 0 {
        Err(DrawFailure::Exhausted)
    } else if bytes.len() < 16 {
        Err(DrawFailure::RandomUnavailable)
    } else if !has_id(v, session_id_of(bytes.take(16))) {
        Ok((session_id_of(bytes.take(16)), bytes.skip(16)))
    } else {
        draw_session_id(v, bytes.skip(16), (tries - 1) as nat)
    }
}

/// The pairing code drawn with at most `tries` attempts from `bytes`, and
/// the bytes left afterwards: the first code of four bytes that no pending
/// session in `v` has.
pub open spec fn draw_pairing_code(v: Seq<SessionView>, bytes: Seq<u8>, tries: nat) -> Result<
    (Seq<char>, Seq<u8>),
    DrawFailure,
>
    decreases tries,
{
    if tries == 0 {
        Err(DrawFailure::Exhausted)
    } else if bytes.len() < 4 {
        Err(DrawFailure::RandomUnavailable)
    } else if !code_in_use(v, code_of(bytes.take(4))) {
        Ok((code_of(bytes.take(4)), bytes.skip(4)))
    } else {
        draw_pairing_code(v, bytes.skip(4), (tries - 1) as nat)
    }
}

// ---------------------------------------------------------------------------
// The store's operations, stated over its view
// ---------------------------------------------------------------------------

/// The session a create request makes.
pub open spec fn new_session(
    request: CreatePairingRequest,
    id: Seq<char>,
    code: Seq<char>,
    now: u64,
) -> SessionView {
    SessionView {
        session_id: id,
        pairing_code: code,
        device_name: match clean_label_spec(opt_str_view(request.device_name)) {
            Some(l) => l,
            None => "Android TV"@,
        },
        device_type: match clean_label_spec(opt_str_view(request.device_type)) {
            Some(l) => l,
            None => "android_tv"@,
        },
        app_id: match clean_label_spec(opt_str_view(request.app_id)) {
            Some(l) => l,
            None => ""@,
        },
        app_version: match clean_label_spec(opt_str_view(request.app_version)) {
            Some(l) => l,
            None => ""@,
        },
        client_nonce_hash: secret_hash(trim(request.client_nonce@)),
        created_at: now,
        expires_at: if now as int + SESSION_TTL_SECONDS > u64::MAX {
            u64::MAX
        } else {
            (now + SESSION_TTL_SECONDS) as u64
        },
        status: StoredPairingStatus::Pending,
    }
}

/// How creating a session ends, given the sessions left after pruning and
/// the random bytes handed in.
pub enum CreateOutcome {
    Failed { status: u16, code: Seq<char>, message: Seq<char> },
    Created { session_id: Seq<char>, pairing_code: Seq<char>, rest: Seq<u8> },
}

pub open spec fn failure_triple(f: DrawFailure, exhausted_message: Seq<char>) -> (u16, Seq<char>, Seq<char>) {
    match f {
        DrawFailure::RandomUnavailable => (500, "random_unavailable"@, "random source unavailable"@),
        DrawFailure::Exhausted => (500, "pairing_generation_failed"@, exhausted_message),
    }
}

pub open spec fn failed_outcome(t: (u16, Seq<char>, Seq<char>)) -> CreateOutcome {
    CreateOutcome::Failed { status: t.0, code: t.1, message: t.2 }
}

#[verifier::opaque]
pub open spec fn create_outcome(pruned: Seq<SessionView>, bytes: Seq<u8>) -> CreateOutcome {
    match draw_session_id(pruned, bytes, 8) {
        Err(f) => failed_outcome(failure_triple(f, "failed to generate pairing session"@)),
        Ok((id, rest)) => match draw_pairing_code(pruned, rest, 16) {
            Err(f) => failed_outcome(failure_triple(f, "failed to generate pairing code"@)),
            Ok((code, rest2)) => CreateOutcome::Created { session_id: id, pairing_code: code, rest: rest2 },
        },
    }
}

/// What polling answers, as (status, expiry, token).
pub enum PollOutcome {
    Expired,
    Pending { expires_at: u64 },
    Approved { access_token: Seq<char> },
    Rejected,
    BadNonce,
}

/// What polling session `id` with `nonce` answers at `now`, on the sessions
/// left after pruning.
pub open spec fn poll_spec(v: Seq<SessionView>, id: Seq<char>, nonce: Seq<char>, now: u64) -> PollOutcome {
    match index_of_id(v, id) {
        None => PollOutcome::Expired,
        Some(i) => if secret_hash(nonce) != v[i].client_nonce_hash {
            PollOutcome::BadNonce
        } else if now > v[i].expires_at {
            PollOutcome::Expired
        } else {
            match v[i].status {
                StoredPairingStatus::Pending => PollOutcome::Pending { expires_at: v[i].expires_at },
                StoredPairingStatus::Approved { access_token } => PollOutcome::Approved {
                    access_token: access_token@,
                },
                StoredPairingStatus::Rejected => PollOutcome::Rejected,
            }
        },
    }
}

pub open spec fn poll_response_matches(r: Result<PollPairingResponse, PairingError>, o: PollOutcome) -> bool {
    match o {
        PollOutcome::BadNonce => r matches Err(e) && is_error(
            e,
            401,
            "invalid_client_nonce"@,
            "valid client nonce required"@,
        ),
        PollOutcome::Expired => r matches Ok(p) && p.status@ == "expired"@ && p.expires_at is None
            && p.poll_interval_seconds is None && p.access_token is None && p.token_type is None,
        PollOutcome::Pending { expires_at } => r matches Ok(p) && p.status@ == "pending"@
            && p.expires_at == Some(expires_at) && p.poll_interval_seconds == Some(
            POLL_INTERVAL_SECONDS,
        ) && p.access_token is None && p.token_type is None,
        PollOutcome::Approved { access_token } => r matches Ok(p) && p.status@ == "approved"@
            && p.expires_at is None && p.poll_interval_seconds is None && (p.access_token matches Some(
            t,
        ) && t@ == access_token) && (p.token_type matches Some(tt) && tt@ == "Bearer"@),
        PollOutcome::Rejected => r matches Ok(p) && p.status@ == "rejected"@ && p.expires_at is None
            && p.poll_interval_seconds is None && p.access_token is None && p.token_type is None,
    }
}

/// The list entry shown to the admin for a session.
pub open spec fn pending_entry(s: SessionView) -> (Seq<char>, Seq<char>, Seq<char>, Seq<char>, Seq<char>, Seq<char>, u64, u64) {
    (
        s.session_id,
        s.pairing_code,
        s.device_name,
        s.device_type,
        s.app_id,
        s.app_version,
        s.created_at,
        s.expires_at,
    )
}

pub open spec fn entry_view(e: PendingPairingSession) -> (Seq<char>, Seq<char>, Seq<char>, Seq<char>, Seq<char>, Seq<char>, u64, u64) {
    (
        e.session_id@,
        e.pairing_code@,
        e.device_name@,
        e.device_type@,
        e.app_id@,
        e.app_version@,
        e.created_at,
        e.expires_at,
    )
}

/// The entries of the pending sessions, in store order.
pub open spec fn pending_entries(v: Seq<SessionView>) -> Seq<(Seq<char>, Seq<char>, Seq<char>, Seq<char>, Seq<char>, Seq<char>, u64, u64)>
    decreases v.len(),
{
    if v.len() == 0 {
        Seq::empty()
    } else if is_pending(v.last()) {
        pending_entries(v.drop_last()).push(pending_entry(v.last()))
    } else {
        pending_entries(v.drop_last())
    }
}

pub open spec fn entries_view(d: Seq<PendingPairingSession>) -> Seq<(Seq<char>, Seq<char>, Seq<char>, Seq<char>, Seq<char>, Seq<char>, u64, u64)> {
    d.map_values(|e: PendingPairingSession| entry_view(e))
}

pub open spec fn sorted_by_created(d: Seq<PendingPairingSession>) -> bool {
    forall|i: int, j: int| 0 <= i <= j < d.len() ==> #[trigger] d[i].created_at <= #[trigger] d[j].created_at
}

/// What approving by code answers, before a token exists: the session to
/// approve, or the reason it cannot be.
pub open spec fn candidate_spec(v: Seq<SessionView>, code: Seq<char>, label: Option<Seq<char>>, now: u64) -> Result<
    (Seq<char>, Seq<char>),
    (u16, Seq<char>, Seq<char>),
> {
    match decision_index(v, digits_only(code)) {
        None => Err((404, "pairing_not_found"@, "pairing code not found"@)),
        Some(i) => if now > v[i].expires_at {
            Err((404, "pairing_expired"@, "pairing code expired"@))
        } else if !is_pending(v[i]) {
            Err((409, "pairing_not_pending"@, "pairing session is not pending"@))
        } else {
            Ok(
                (
                    v[i].session_id,
                    match clean_label_spec(label) {
                        Some(l) => l,
                        None => v[i].device_name,
                    },
                ),
            )
        },
    }
}

/// `v` with the status of session `i` replaced.
pub open spec fn with_status(v: Seq<SessionView>, i: int, status: StoredPairingStatus) -> Seq<SessionView> {
    v.update(i, SessionView { status, ..v[i] })
}


impl PairingSession {
    fn clone_session(&self) -> (r: Self)
        ensures
            r == *self,
    {
        PairingSession {
            session_id: self.session_id.clone(),
            pairing_code: self.pairing_code.clone(),
            device_name: self.device_name.clone(),
            device_type: self.device_type.clone(),
            app_id: self.app_id.clone(),
            app_version: self.app_version.clone(),
            client_nonce_hash: self.client_nonce_hash.clone(),
            created_at: self.created_at,
            expires_at: self.expires_at,
            status: self.status.clone_status(),
        }
    }
}

pub proof fn lemma_prune_subset(v: Seq<SessionView>, now: u64)
    ensures
        forall|k: int|
            0 <= k < prune_spec(v, now).len() ==> exists|j: int|
                0 <= j < v.len() && v[j] == #[trigger] prune_spec(v, now)[k],
        prune_spec(v, now).len() <= v.len(),
    decreases v.len(),
{
    if v.len() > 0 {
        let u = v.drop_last();
        lemma_prune_subset(u, now);
        assert forall|k: int| 0 <= k < prune_spec(v, now).len() implies exists|j: int|
            0 <= j < v.len() && v[j] == #[trigger] prune_spec(v, now)[k] by {
            if k < prune_spec(u, now).len() {
                let j = choose|j: int| 0 <= j < u.len() && u[j] == #[trigger] prune_spec(u, now)[k];
                assert(v[j] == u[j]);
            } else {
                assert(v[v.len() - 1] == prune_spec(v, now)[k]);
            }
        }
    }
}

pub proof fn lemma_prune_unique(v: Seq<SessionView>, now: u64)
    requires
        ids_unique(v),
    ensures
        ids_unique(prune_spec(v, now)),
    decreases v.len(),
{
    if v.len() > 0 {
        let u = v.drop_last();
        assert(ids_unique(u)) by {
            assert forall|i: int, j: int|
                0 <= i < u.len() && 0 <= j < u.len() && i != j implies #[trigger] u[i].session_id
                != #[trigger] u[j].session_id by {
                assert(u[i] == v[i] && u[j] == v[j]);
            }
        }
        lemma_prune_unique(u, now);
        lemma_prune_subset(u, now);
        if now <= v.last().expires_at {
            let p = prune_spec(u, now);
            let q = prune_spec(v, now);
            assert forall|i: int, j: int|
                0 <= i < q.len() && 0 <= j < q.len() && i != j implies #[trigger] q[i].session_id
                != #[trigger] q[j].session_id by {
                if i < p.len() && j < p.len() {
                    assert(q[i] == p[i] && q[j] == p[j]);
                } else if i < p.len() {
                    let a = choose|a: int| 0 <= a < u.len() && u[a] == #[trigger] p[i];
                    assert(v[a] == u[a]);
                    assert(v[v.len() - 1].session_id != v[a].session_id);
                } else if j < p.len() {
                    let a = choose|a: int| 0 <= a < u.len() && u[a] == #[trigger] p[j];
                    assert(v[a] == u[a]);
                    assert(v[v.len() - 1].session_id != v[a].session_id);
                }
            }
        }
    }
}

pub proof fn lemma_prune_keeps(v: Seq<SessionView>, now: u64, i: int)
    requires
        0 <= i < v.len(),
        now <= v[i].expires_at,
    ensures
        exists|k: int| 0 <= k < prune_spec(v, now).len() && #[trigger] prune_spec(v, now)[k] == v[i],
    decreases v.len(),
{
    let u = v.drop_last();
    if i < v.len() - 1 {
        lemma_prune_keeps(u, now, i);
        let k = choose|k: int| 0 <= k < prune_spec(u, now).len() && #[trigger] prune_spec(u, now)[k] == u[i];
        assert(u[i] == v[i]);
        if now <= v.last().expires_at {
            assert(prune_spec(v, now)[k] == prune_spec(u, now)[k]);
        } else {
            assert(prune_spec(v, now) == prune_spec(u, now));
        }
    } else {
        assert(prune_spec(v, now)[prune_spec(v, now).len() - 1] == v[i]);
    }
}

/// Every session left by pruning lives until at least `now`.
pub proof fn lemma_prune_live(v: Seq<SessionView>, now: u64)
    ensures
        forall|k: int| 0 <= k < prune_spec(v, now).len() ==> now <= #[trigger] prune_spec(v, now)[k].expires_at,
    decreases v.len(),
{
    if v.len() > 0 {
        lemma_prune_live(v.drop_last(), now);
    }
}

proof fn lemma_with_status_unique(v: Seq<SessionView>, i: int, status: StoredPairingStatus)
    requires
        ids_unique(v),
        0 <= i < v.len(),
    ensures
        ids_unique(with_status(v, i, status)),
{
    let w = with_status(v, i, status);
    assert forall|a: int, b: int|
        0 <= a < w.len() && 0 <= b < w.len() && a != b implies #[trigger] w[a].session_id
        != #[trigger] w[b].session_id by {
        assert(w[a].session_id == v[a].session_id && w[b].session_id == v[b].session_id);
    }
}

proof fn lemma_sessions_view_push(s: Seq<PairingSession>, x: PairingSession)
    ensures
        sessions_view(s.push(x)) == sessions_view(s).push(session_view(x)),
{
    assert(s.push(x).drop_last() =~= s);
}

proof fn lemma_sessions_view_update(s: Seq<PairingSession>, i: int, x: PairingSession)
    requires
        0 <= i < s.len(),
    ensures
        sessions_view(s.update(i, x)) == sessions_view(s).update(i, session_view(x)),
{
    lemma_sessions_view(s);
    lemma_sessions_view(s.update(i, x));
    assert(sessions_view(s.update(i, x)) =~= sessions_view(s).update(i, session_view(x)));
}

impl PairingStore {
    #[verifier::type_invariant]
    spec fn unique(&self) -> bool {
        ids_unique(sessions_view(self.sessions@))
    }

    fn prune_expired(&mut self, now: u64)
        ensures
            final(self)@ == prune_spec(old(self)@, now),
    {
        proof {
            use_type_invariant(&*self);
        }
        let ghost before = self.sessions@;
        let mut kept: Vec<PairingSession> = Vec::new();
        let mut i: usize = 0;
        while i < self.sessions.len()
            invariant
                self.sessions@ == before,
                i <= before.len(),
                sessions_view(kept@) == prune_spec(sessions_view(before.take(i as int)), now),
            decreases before.len() - i,
        {
            proof {
                assert(before.take(i as int + 1) =~= before.take(i as int).push(before[i as int]));
                lemma_sessions_view_push(before.take(i as int), before[i as int]);
                let sv = sessions_view(before.take(i as int + 1));
                assert(sv.drop_last() =~= sessions_view(before.take(i as int)));
                assert(sv.last() == session_view(before[i as int]));
            }
            if now <= self.sessions[i].expires_at {
                let s = self.sessions[i].clone_session();
                proof {
                    lemma_sessions_view_push(kept@, s);
                }
                kept.push(s);
            }
            i = i + 1;
        }
        proof {
            assert(before.take(before.len() as int) =~= before);
            lemma_prune_unique(sessions_view(before), now);
        }
        self.sessions = kept;
    }

    fn has_session_id(&self, id: &[char]) -> (r: bool)
        ensures
            r == has_id(self@, id@),
    {
        proof {
            lemma_sessions_view(self.sessions@);
        }
        let mut i: usize = 0;
        while i < self.sessions.len()
            invariant
                i <= self@.len(),
                sessions_view(self.sessions@).len() == self.sessions@.len(),
                forall|j: int| 0 <= j < i ==> #[trigger] self@[j].session_id != id@,
                forall|k: int| 0 <= k < self.sessions@.len() ==> #[trigger] sessions_view(self.sessions@)[k] == session_view(self.sessions@[k]),
            decreases self@.len() - i,
        {
            let cs = chars_of(self.sessions[i].session_id.as_str());
            if seq_equal(cs.as_slice(), id) {
                assert(self@[i as int].session_id == id@);
                return true;
            }
            i = i + 1;
        }
        false
    }

    fn pending_code_in_use(&self, code: &[char]) -> (r: bool)
        ensures
            r == code_in_use(self@, code@),
    {
        proof {
            lemma_sessions_view(self.sessions@);
        }
        let mut i: usize = 0;
        while i < self.sessions.len()
            invariant
                i <= self@.len(),
                sessions_view(self.sessions@).len() == self.sessions@.len(),
                forall|j: int| 0 <= j < i ==> !(#[trigger] self@[j].pairing_code == code@ && is_pending(self@[j])),
                forall|k: int| 0 <= k < self.sessions@.len() ==> #[trigger] sessions_view(self.sessions@)[k] == session_view(self.sessions@[k]),
            decreases self@.len() - i,
        {
            let cs = chars_of(self.sessions[i].pairing_code.as_str());
            let pending = match self.sessions[i].status {
                StoredPairingStatus::Pending => true,
                _ => false,
            };
            if pending && seq_equal(cs.as_slice(), code) {
                assert(self@[i as int].pairing_code == code@ && is_pending(self@[i as int]));
                return true;
            }
            i = i + 1;
        }
        false
    }

    fn unique_session_id(&self, entropy: &mut Entropy) -> (r: Result<Vec<char>, PairingError>)
        ensures
            match draw_session_id(self@, old(entropy).remaining(), 8) {
                Ok((id, rest)) => r matches Ok(x) && x@ == id && final(entropy).remaining() == rest,
                Err(f) => r matches Err(e) && is_error(
                    e,
                    failure_triple(f, "failed to generate pairing session"@).0,
                    failure_triple(f, "failed to generate pairing session"@).1,
                    failure_triple(f, "failed to generate pairing session"@).2,
                ),
            },
    {
        let mut k: usize = 0;
        while k < 8
            invariant
                k <= 8,
                draw_session_id(self@, old(entropy).remaining(), 8) == draw_session_id(self@, entropy.remaining(), (8 - k) as nat),
            decreases 8 - k,
        {
            let bytes = match entropy.take(16) {
                Some(b) => b,
                None => return Err(PairingError::internal("random_unavailable", "random source unavailable")),
            };
            let hex = chars_of(to_hex(bytes.as_slice()).as_str());
            let mut id = crate::text::lit("ps_");
            crate::text::extend_chars(&mut id, hex.as_slice());
            if !self.has_session_id(id.as_slice()) {
                return Ok(id);
            }
            k = k + 1;
        }
        Err(PairingError::internal("pairing_generation_failed", "failed to generate pairing session"))
    }

    fn unique_pairing_code(&self, entropy: &mut Entropy) -> (r: Result<Vec<char>, PairingError>)
        ensures
            match draw_pairing_code(self@, old(entropy).remaining(), 16) {
                Ok((code, rest)) => r matches Ok(x) && x@ == code && final(entropy).remaining() == rest,
                Err(f) => r matches Err(e) && is_error(
                    e,
                    failure_triple(f, "failed to generate pairing code"@).0,
                    failure_triple(f, "failed to generate pairing code"@).1,
                    failure_triple(f, "failed to generate pairing code"@).2,
                ),
            },
    {
        let mut k: usize = 0;
        while k < 16
            invariant
                k <= 16,
                draw_pairing_code(self@, old(entropy).remaining(), 16) == draw_pairing_code(self@, entropy.remaining(), (16 - k) as nat),
            decreases 16 - k,
        {
            let bytes = match entropy.take(4) {
                Some(b) => b,
                None => return Err(PairingError::internal("random_unavailable", "random source unavailable")),
            };
            let code = pairing_code_from(bytes.as_slice());
            if !self.pending_code_in_use(code.as_slice()) {
                return Ok(code);
            }
            k = k + 1;
        }
        Err(PairingError::internal("pairing_generation_failed", "failed to generate pairing code"))
    }
}


fn opt_as_str(o: &Option<String>) -> (r: Option<&str>)
    ensures
        opt_ref_view(r) == opt_str_view(*o),
{
    match o {
        Some(s) => Some(s.as_str()),
        None => None,
    }
}

fn label_or(value: &Option<String>, default: &str) -> (r: String)
    ensures
        r@ == match clean_label_spec(opt_str_view(*value)) {
            Some(l) => l,
            None => default@,
        },
{
    match clean_label(opt_as_str(value)) {
        Some(l) => string_of(l.as_slice()),
        None => String::from_str(default),
    }
}

impl PendingPairingSession {
    fn clone_entry(&self) -> (r: Self)
        ensures
            r == *self,
    {
        PendingPairingSession {
            session_id: self.session_id.clone(),
            pairing_code: self.pairing_code.clone(),
            device_name: self.device_name.clone(),
            device_type: self.device_type.clone(),
            app_id: self.app_id.clone(),
            app_version: self.app_version.clone(),
            created_at: self.created_at,
            expires_at: self.expires_at,
        }
    }
}

/// Orders the entries by creation time, keeping the order of equal times.
fn sort_by_created(v: &Vec<PendingPairingSession>) -> (r: Vec<PendingPairingSession>)
    ensures
        sorted_by_created(r@),
        entries_view(r@).to_multiset() == entries_view(v@).to_multiset(),
{
    let mut out: Vec<PendingPairingSession> = Vec::new();
    let mut i: usize = 0;
    while i < v.len()
        invariant
            i <= v@.len(),
            sorted_by_created(out@),
            entries_view(out@).to_multiset() == entries_view(v@.take(i as int)).to_multiset(),
        decreases v@.len() - i,
    {
        let x = v[i].clone_entry();
        let mut p: usize = 0;
        while p < out.len() && out[p].created_at <= x.created_at
            invariant
                p <= out@.len(),
                forall|k: int| 0 <= k < p ==> #[trigger] out@[k].created_at <= x.created_at,
            decreases out@.len() - p,
        {
            p = p + 1;
        }
        let ghost before = out@;
        proof {
            if p < out@.len() {
                assert forall|k: int| p <= k < out@.len() implies #[trigger] out@[k].created_at > x.created_at by {
                    assert(out@[p as int].created_at <= out@[k].created_at);
                }
            }
        }
        out.insert(p, x);
        proof {
            assert(entries_view(out@) =~= entries_view(before).insert(p as int, entry_view(x)));
            assert(v@.take(i as int + 1) =~= v@.take(i as int).push(v@[i as int]));
            assert(entries_view(v@.take(i as int + 1)) =~= entries_view(v@.take(i as int)).push(entry_view(v@[i as int])));
            assert forall|a: int, b: int| 0 <= a <= b < out@.len() implies #[trigger] out@[a].created_at <= #[trigger] out@[b].created_at by {
                if a < p && b > p {
                    assert(out@[a] == before[a] && out@[b] == before[b - 1]);
                } else if a < p && b < p {
                    assert(out@[a] == before[a] && out@[b] == before[b]);
                } else if a > p {
                    assert(out@[a] == before[a - 1] && out@[b] == before[b - 1]);
                } else if a == p && b > p {
                    assert(out@[b] == before[b - 1]);
                } else if a < p && b == p {
                    assert(out@[a] == before[a]);
                }
            }
        }
        i = i + 1;
    }
    assert(v@.take(v@.len() as int) =~= v@);
    out
}

proof fn lemma_draw_session_fresh(v: Seq<SessionView>, bytes: Seq<u8>, tries: nat)
    ensures
        draw_session_id(v, bytes, tries) matches Ok((id, rest)) ==> !has_id(v, id),
    decreases tries,
{
    if tries > 0 && bytes.len() >= 16 && has_id(v, session_id_of(bytes.take(16))) {
        lemma_draw_session_fresh(v, bytes.skip(16), (tries - 1) as nat);
    }
}

fn build_session(
    request: &CreatePairingRequest,
    nonce: &[char],
    id: &[char],
    code: &[char],
    now: u64,
) -> (r: PairingSession)
    requires
        nonce@ == trim(request.client_nonce@),
    ensures
        session_view(r) == new_session(*request, id@, code@, now),
        r.session_id@ == id@,
{
    let expires_at = now.saturating_add(SESSION_TTL_SECONDS);
    let r = PairingSession {
        session_id: string_of(id),
        pairing_code: string_of(code),
        device_name: label_or(&request.device_name, "Android TV"),
        device_type: label_or(&request.device_type, "android_tv"),
        app_id: label_or(&request.app_id, ""),
        app_version: label_or(&request.app_version, ""),
        client_nonce_hash: hash_secret(string_of(nonce).as_str()),
        created_at: now,
        expires_at,
        status: StoredPairingStatus::Pending,
    };
    r
}

proof fn lemma_push_unique(s: Seq<PairingSession>, x: PairingSession)
    requires
        ids_unique(sessions_view(s)),
        !has_id(sessions_view(s), x.session_id@),
    ensures
        ids_unique(sessions_view(s.push(x))),
        sessions_view(s.push(x)) == sessions_view(s).push(session_view(x)),
{
    lemma_sessions_view_push(s, x);
    let w = sessions_view(s).push(session_view(x));
    assert forall|a: int, b: int|
        0 <= a < w.len() && 0 <= b < w.len() && a != b implies #[trigger] w[a].session_id
        != #[trigger] w[b].session_id by {
        if a < w.len() - 1 && b < w.len() - 1 {
            assert(w[a] == sessions_view(s)[a] && w[b] == sessions_view(s)[b]);
        } else if a == w.len() - 1 {
            assert(w[b] == sessions_view(s)[b]);
        } else {
            assert(w[a] == sessions_view(s)[a]);
        }
    }
}

impl PairingStore {
    fn index_of_session(&self, id: &[char]) -> (r: Option<usize>)
        ensures
            r matches Some(i) ==> index_of_id(self@, id@) == Some(i as int) && i < self@.len()
                && i < self.sessions@.len(),
            r is None ==> index_of_id(self@, id@) is None,
    {
        proof {
            lemma_sessions_view(self.sessions@);
            lemma_index_of_id(self@, id@);
        }
        let mut i: usize = 0;
        while i < self.sessions.len()
            invariant
                i <= self@.len(),
                sessions_view(self.sessions@).len() == self.sessions@.len(),
                forall|j: int| 0 <= j < i ==> #[trigger] self@[j].session_id != id@,
                forall|k: int| 0 <= k < self.sessions@.len() ==> #[trigger] sessions_view(self.sessions@)[k] == session_view(self.sessions@[k]),
            decreases self@.len() - i,
        {
            let cs = chars_of(self.sessions[i].session_id.as_str());
            if seq_equal(cs.as_slice(), id) {
                assert(self@[i as int].session_id == id@);
                proof {
                    lemma_index_of_id(self@, id@);
                }
                return Some(i);
            }
            i = i + 1;
        }
        proof {
            lemma_index_of_id(self@, id@);
        }
        None
    }

    fn index_of_pairing_code(&self, code: &[char]) -> (r: Option<usize>)
        ensures
            r matches Some(i) ==> index_of_code(self@, code@) == Some(i as int) && i < self@.len()
                && i < self.sessions@.len(),
            r is None ==> index_of_code(self@, code@) is None,
    {
        proof {
            lemma_sessions_view(self.sessions@);
            lemma_index_of_code(self@, code@);
        }
        let mut i: usize = 0;
        while i < self.sessions.len()
            invariant
                i <= self@.len(),
                sessions_view(self.sessions@).len() == self.sessions@.len(),
                forall|j: int| 0 <= j < i ==> #[trigger] self@[j].pairing_code != code@,
                forall|k: int| 0 <= k < self.sessions@.len() ==> #[trigger] sessions_view(self.sessions@)[k] == session_view(self.sessions@[k]),
            decreases self@.len() - i,
        {
            let cs = chars_of(self.sessions[i].pairing_code.as_str());
            if seq_equal(cs.as_slice(), code) {
                assert(self@[i as int].pairing_code == code@);
                proof {
                    lemma_index_of_code(self@, code@);
                }
                return Some(i);
            }
            i = i + 1;
        }
        proof {
            lemma_index_of_code(self@, code@);
        }
        None
    }

    fn pending_index_of_code(&self, code: &[char]) -> (r: Option<usize>)
        ensures
            r matches Some(i) ==> index_of_pending_code(self@, code@) == Some(i as int) && i
                < self.sessions@.len(),
            r is None ==> index_of_pending_code(self@, code@) is None,
    {
        proof {
            lemma_sessions_view(self.sessions@);
            lemma_index_of_pending_code(self@, code@);
        }
        let mut i: usize = 0;
        while i < self.sessions.len()
            invariant
                i <= self@.len(),
                sessions_view(self.sessions@).len() == self.sessions@.len(),
                forall|j: int|
                    0 <= j < i ==> !(#[trigger] self@[j].pairing_code == code@ && is_pending(
                        self@[j],
                    )),
                forall|k: int| 0 <= k < self.sessions@.len() ==> #[trigger] sessions_view(self.sessions@)[k] == session_view(self.sessions@[k]),
            decreases self@.len() - i,
        {
            let cs = chars_of(self.sessions[i].pairing_code.as_str());
            let pending = match self.sessions[i].status {
                StoredPairingStatus::Pending => true,
                _ => false,
            };
            if pending && seq_equal(cs.as_slice(), code) {
                assert(self@[i as int].pairing_code == code@ && is_pending(self@[i as int]));
                proof {
                    lemma_index_of_pending_code(self@, code@);
                }
                return Some(i);
            }
            i = i + 1;
        }
        proof {
            lemma_index_of_pending_code(self@, code@);
        }
        None
    }

    fn decision_index_of(&self, code: &[char]) -> (r: Option<usize>)
        ensures
            r matches Some(i) ==> decision_index(self@, code@) == Some(i as int) && i < self@.len()
                && i < self.sessions@.len(),
            r is None ==> decision_index(self@, code@) is None,
    {
        proof {
            lemma_sessions_view(self.sessions@);
        }
        match self.pending_index_of_code(code) {
            Some(i) => Some(i),
            None => self.index_of_pairing_code(code),
        }
    }

    fn set_status(&mut self, i: usize, status: StoredPairingStatus)
        requires
            i < old(self)@.len(),
        ensures
            final(self)@ == with_status(old(self)@, i as int, status),
    {
        proof {
            use_type_invariant(&*self);
            lemma_sessions_view(self.sessions@);
        }
        let mut s = self.sessions[i].clone_session();
        s.status = status;
        let mut sessions: Vec<PairingSession> = Vec::new();
        std::mem::swap(&mut sessions, &mut self.sessions);
        proof {
            lemma_sessions_view_update(sessions@, i as int, s);
            assert(session_view(s) == (SessionView { status, ..session_view(sessions@[i as int]) }));
            lemma_with_status_unique(sessions_view(sessions@), i as int, status);
        }
        sessions[i] = s;
        self.sessions = sessions;
    }

    fn draw_ids(&self, entropy: &mut Entropy) -> (r: Result<(Vec<char>, Vec<char>), PairingError>)
        ensures
            match create_outcome(self@, old(entropy).remaining()) {
                CreateOutcome::Failed { status, code, message } => r matches Err(e) && is_error(
                    e,
                    status,
                    code,
                    message,
                ),
                CreateOutcome::Created { session_id, pairing_code, rest } => r matches Ok((a, b))
                    && a@ == session_id && b@ == pairing_code && final(entropy).remaining() == rest,
            },
            r matches Ok((a, b)) ==> !has_id(self@, a@),
    {
        let ghost bytes = entropy.remaining();
        let session_id = match self.unique_session_id(entropy) {
            Ok(id) => id,
            Err(e) => {
                proof {
                    reveal(create_outcome);
                }
                return Err(e);
            },
        };
        let ghost rest1 = entropy.remaining();
        proof {
            lemma_draw_session_fresh(self@, bytes, 8);
        }
        let pairing_code = match self.unique_pairing_code(entropy) {
            Ok(code) => code,
            Err(e) => {
                proof {
                    reveal(create_outcome);
                }
                return Err(e);
            },
        };
        proof {
            reveal(create_outcome);
        }
        Ok((session_id, pairing_code))
    }

    fn insert_session(&mut self, session: PairingSession)
        requires
            !has_id(old(self)@, session.session_id@),
        ensures
            final(self)@ == old(self)@.push(session_view(session)),
    {
        proof {
            use_type_invariant(&*self);
        }
        let mut sessions: Vec<PairingSession> = Vec::new();
        std::mem::swap(&mut sessions, &mut self.sessions);
        proof {
            lemma_push_unique(sessions@, session);
        }
        sessions.push(session);
        self.sessions = sessions;
    }

    /// Opens a pairing session for a TV, after dropping the expired ones.
    /// The session id and the pairing code are drawn from `entropy`.
    pub fn create(&mut self, request: CreatePairingRequest, now: u64, entropy: &mut Entropy) -> (r:
        Result<CreatePairingResponse, PairingError>)
        ensures
            trim(request.client_nonce@).len() == 0 ==> (r matches Err(e) && is_error(
                e,
                400,
                "missing_client_nonce"@,
                "clientNonce is required"@,
            ) && final(self)@ == old(self)@),
            trim(request.client_nonce@).len() > 0 ==> match create_outcome(
                prune_spec(old(self)@, now),
                old(entropy).remaining(),
            ) {
                CreateOutcome::Failed { status, code, message } => r matches Err(e) && is_error(
                    e,
                    status,
                    code,
                    message,
                ) && final(self)@ == prune_spec(old(self)@, now),
                CreateOutcome::Created { session_id, pairing_code, rest } => r matches Ok(resp)
                    && resp.session_id@ == session_id && resp.pairing_code@ == pairing_code
                    && resp.expires_at == new_session(request, session_id, pairing_code, now).expires_at
                    && resp.poll_interval_seconds == POLL_INTERVAL_SECONDS && final(self)@
                    == prune_spec(old(self)@, now).push(
                    new_session(request, session_id, pairing_code, now),
                ) && final(entropy).remaining() == rest,
            },
            ids_unique(old(self)@),
            ids_unique(final(self)@),
    {
        proof {
            use_type_invariant(&*self);
        }
        let client_nonce = trim_str(request.client_nonce.as_str());
        if client_nonce.len() == 0 {
            return Err(PairingError::bad_request("missing_client_nonce", "clientNonce is required"));
        }
        self.prune_expired(now);
        proof {
            use_type_invariant(&*self);
        }
        let (session_id, pairing_code) = match self.draw_ids(entropy) {
            Ok(p) => p,
            Err(e) => return Err(e),
        };
        let session = build_session(&request, client_nonce.as_slice(), session_id.as_slice(), pairing_code.as_slice(), now);
        let expires_at = session.expires_at;
        self.insert_session(session);
        proof {
            use_type_invariant(&*self);
        }
        Ok(
            CreatePairingResponse {
                session_id: string_of(session_id.as_slice()),
                pairing_code: string_of(pairing_code.as_slice()),
                expires_at,
                poll_interval_seconds: POLL_INTERVAL_SECONDS,
            },
        )
    }

    /// What a TV polling session `session_id` with its nonce is told, after
    /// the expired sessions are dropped.
    pub fn poll(&mut self, session_id: &str, client_nonce: &str, now: u64) -> (r: Result<
        PollPairingResponse,
        PairingError,
    >)
        ensures
            final(self)@ == prune_spec(old(self)@, now),
            poll_response_matches(r, poll_spec(final(self)@, session_id@, client_nonce@, now)),
            ids_unique(old(self)@),
            ids_unique(final(self)@),
    {
        proof {
            use_type_invariant(&*self);
        }
        self.prune_expired(now);
        proof {
            use_type_invariant(&*self);
        }
        let id = chars_of(session_id);
        proof {
            lemma_sessions_view(self.sessions@);
        }
        let i = match self.index_of_session(id.as_slice()) {
            None => return Ok(PollPairingResponse::expired()),
            Some(i) => i,
        };
        if !verify_secret(client_nonce, self.sessions[i].client_nonce_hash.as_str()) {
            return Err(PairingError::unauthorized("invalid_client_nonce", "valid client nonce required"));
        }
        if now > self.sessions[i].expires_at {
            return Ok(PollPairingResponse::expired());
        }
        match &self.sessions[i].status {
            StoredPairingStatus::Pending => Ok(
                PollPairingResponse {
                    status: "pending",
                    expires_at: Some(self.sessions[i].expires_at),
                    poll_interval_seconds: Some(POLL_INTERVAL_SECONDS),
                    access_token: None,
                    token_type: None,
                },
            ),
            StoredPairingStatus::Approved { access_token } => Ok(
                PollPairingResponse {
                    status: "approved",
                    expires_at: None,
                    poll_interval_seconds: None,
                    access_token: Some(access_token.clone()),
                    token_type: Some("Bearer"),
                },
            ),
            StoredPairingStatus::Rejected => Ok(
                PollPairingResponse {
                    status: "rejected",
                    expires_at: None,
                    poll_interval_seconds: None,
                    access_token: None,
                    token_type: None,
                },
            ),
        }
    }

    /// The pending sessions, oldest first, after the expired ones are dropped.
    pub fn pending_sessions(&mut self, now: u64) -> (r: PendingPairingSessionsResponse)
        ensures
            final(self)@ == prune_spec(old(self)@, now),
            sorted_by_created(r.data@),
            entries_view(r.data@).to_multiset() == pending_entries(final(self)@).to_multiset(),
            ids_unique(old(self)@),
            ids_unique(final(self)@),
    {
        proof {
            use_type_invariant(&*self);
        }
        self.prune_expired(now);
        proof {
            use_type_invariant(&*self);
            lemma_sessions_view(self.sessions@);
        }
        let mut data: Vec<PendingPairingSession> = Vec::new();
        let mut i: usize = 0;
        while i < self.sessions.len()
            invariant
                i <= self@.len(),
                sessions_view(self.sessions@).len() == self.sessions@.len(),
                forall|k: int| 0 <= k < self.sessions@.len() ==> #[trigger] sessions_view(self.sessions@)[k] == session_view(self.sessions@[k]),
                entries_view(data@) == pending_entries(self@.take(i as int)),
            decreases self@.len() - i,
        {
            proof {
                assert(self@.take(i as int + 1).drop_last() =~= self@.take(i as int));
            }
            let pending = match self.sessions[i].status {
                StoredPairingStatus::Pending => true,
                _ => false,
            };
            if pending {
                let s = &self.sessions[i];
                let e = PendingPairingSession {
                    session_id: s.session_id.clone(),
                    pairing_code: s.pairing_code.clone(),
                    device_name: s.device_name.clone(),
                    device_type: s.device_type.clone(),
                    app_id: s.app_id.clone(),
                    app_version: s.app_version.clone(),
                    created_at: s.created_at,
                    expires_at: s.expires_at,
                };
                let ghost before = data@;
                data.push(e);
                assert(entries_view(data@) =~= entries_view(before).push(entry_view(e)));
            }
            i = i + 1;
        }
        assert(self@.take(self@.len() as int) =~= self@);
        PendingPairingSessionsResponse { data: sort_by_created(&data) }
    }

    /// The session to approve for a typed pairing code, and the name its
    /// token gets, after the expired sessions are dropped.
    pub fn approval_candidate(&mut self, pairing_code: &str, device_label: Option<&str>, now: u64) -> (r:
        Result<PairingApprovalCandidate, PairingError>)
        ensures
            final(self)@ == prune_spec(old(self)@, now),
            match candidate_spec(final(self)@, pairing_code@, opt_ref_view(device_label), now) {
                Ok((id, name)) => r matches Ok(c) && c.session_id@ == id && c.token_name@ == name,
                Err((status, code, message)) => r matches Err(e) && is_error(e, status, code, message),
            },
            ids_unique(old(self)@),
            ids_unique(final(self)@),
    {
        proof {
            use_type_invariant(&*self);
        }
        self.prune_expired(now);
        proof {
            use_type_invariant(&*self);
            lemma_sessions_view(self.sessions@);
        }
        let code = normalize_pairing_code(pairing_code);
        let i = match self.decision_index_of(code.as_slice()) {
            None => return Err(PairingError::not_found("pairing_not_found", "pairing code not found")),
            Some(i) => i,
        };
        if now > self.sessions[i].expires_at {
            return Err(PairingError::not_found("pairing_expired", "pairing code expired"));
        }
        let pending = match self.sessions[i].status {
            StoredPairingStatus::Pending => true,
            _ => false,
        };
        if !pending {
            return Err(PairingError::conflict("pairing_not_pending", "pairing session is not pending"));
        }
        let token_name = match clean_label(device_label) {
            Some(l) => string_of(l.as_slice()),
            None => self.sessions[i].device_name.clone(),
        };
        Ok(PairingApprovalCandidate { session_id: self.sessions[i].session_id.clone(), token_name })
    }

    /// Marks session `session_id` approved with the token the TV will get.
    pub fn approve(&mut self, session_id: &str, access_token: String) -> (r: Result<(), PairingError>)
        ensures
            match index_of_id(old(self)@, session_id@) {
                None => r matches Err(e) && is_error(
                    e,
                    404,
                    "pairing_not_found"@,
                    "pairing session not found"@,
                ) && final(self)@ == old(self)@,
                Some(i) => r is Ok && final(self)@ == with_status(
                    old(self)@,
                    i,
                    StoredPairingStatus::Approved { access_token },
                ),
            },
            ids_unique(old(self)@),
            ids_unique(final(self)@),
    {
        proof {
            use_type_invariant(&*self);
        }
        let id = chars_of(session_id);
        match self.index_of_session(id.as_slice()) {
            None => Err(PairingError::not_found("pairing_not_found", "pairing session not found")),
            Some(i) => {
                self.set_status(i, StoredPairingStatus::Approved { access_token });
                proof {
                    use_type_invariant(&*self);
                }
                Ok(())
            },
        }
    }

    /// Marks the session with a typed pairing code rejected, after the
    /// expired sessions are dropped: the pending session with that code, or
    /// else the first session holding it.
    pub fn reject(&mut self, pairing_code: &str, now: u64) -> (r: Result<(), PairingError>)
        ensures
            match decision_index(prune_spec(old(self)@, now), digits_only(pairing_code@)) {
                None => r matches Err(e) && is_error(
                    e,
                    404,
                    "pairing_not_found"@,
                    "pairing code not found"@,
                ) && final(self)@ == prune_spec(old(self)@, now),
                Some(i) => r is Ok && final(self)@ == with_status(
                    prune_spec(old(self)@, now),
                    i,
                    StoredPairingStatus::Rejected,
                ),
            },
            ids_unique(old(self)@),
            ids_unique(final(self)@),
    {
        proof {
            use_type_invariant(&*self);
        }
        self.prune_expired(now);
        proof {
            use_type_invariant(&*self);
        }
        let code = normalize_pairing_code(pairing_code);
        match self.decision_index_of(code.as_slice()) {
            None => Err(PairingError::not_found("pairing_not_found", "pairing code not found")),
            Some(i) => {
                self.set_status(i, StoredPairingStatus::Rejected);
                proof {
                    use_type_invariant(&*self);
                }
                Ok(())
            },
        }
    }
}


// ---------------------------------------------------------------------------
// Laws
// ---------------------------------------------------------------------------

proof fn lemma_find_kept(v: Seq<SessionView>, i: int, now: u64)
    requires
        ids_unique(v),
        0 <= i < v.len(),
        now <= v[i].expires_at,
    ensures
        index_of_id(prune_spec(v, now), v[i].session_id) matches Some(k) && prune_spec(v, now)[k]
            == v[i],
{
    let p = prune_spec(v, now);
    lemma_prune_keeps(v, now, i);
    lemma_prune_unique(v, now);
    let k = choose|k: int| 0 <= k < p.len() && #[trigger] p[k] == v[i];
    lemma_index_of_id(p, v[i].session_id);
    if let Some(j) = index_of_id(p, v[i].session_id) {
        if j != k {
            assert(p[j].session_id != p[k].session_id);
        }
    } else {
        assert(p[k].session_id == v[i].session_id);
    }
}

/// After the session with id `id` is approved with `token`, a poll with its
/// nonce before it expires is answered with that token.
pub proof fn law_poll_after_approve(
    v: Seq<SessionView>,
    id: Seq<char>,
    token: String,
    nonce: Seq<char>,
    now: u64,
)
    requires
        ids_unique(v),
        index_of_id(v, id) is Some,
        secret_hash(nonce) == v[index_of_id(v, id)->0].client_nonce_hash,
        now <= v[index_of_id(v, id)->0].expires_at,
    ensures
        poll_spec(
            prune_spec(
                with_status(v, index_of_id(v, id)->0, StoredPairingStatus::Approved { access_token: token }),
                now,
            ),
            id,
            nonce,
            now,
        ) == (PollOutcome::Approved { access_token: token@ }),
{
    let i = index_of_id(v, id)->0;
    lemma_index_of_id(v, id);
    let w = with_status(v, i, StoredPairingStatus::Approved { access_token: token });
    lemma_with_status_unique(v, i, StoredPairingStatus::Approved { access_token: token });
    lemma_find_kept(w, i, now);
}

/// After the session with id `id` is rejected, a poll with its nonce
/// before it expires is answered "rejected".
pub proof fn law_poll_after_reject(v: Seq<SessionView>, id: Seq<char>, nonce: Seq<char>, now: u64)
    requires
        ids_unique(v),
        index_of_id(v, id) is Some,
        secret_hash(nonce) == v[index_of_id(v, id)->0].client_nonce_hash,
        now <= v[index_of_id(v, id)->0].expires_at,
    ensures
        poll_spec(
            prune_spec(with_status(v, index_of_id(v, id)->0, StoredPairingStatus::Rejected), now),
            id,
            nonce,
            now,
        ) == PollOutcome::Rejected,
{
    let i = index_of_id(v, id)->0;
    lemma_index_of_id(v, id);
    let w = with_status(v, i, StoredPairingStatus::Rejected);
    lemma_with_status_unique(v, i, StoredPairingStatus::Rejected);
    lemma_find_kept(w, i, now);
}

/// A poll of a live session with a nonce that does not hash to the stored
/// one is refused.
pub proof fn law_poll_wrong_nonce(v: Seq<SessionView>, i: int, nonce: Seq<char>, now: u64)
    requires
        ids_unique(v),
        0 <= i < v.len(),
        now <= v[i].expires_at,
        secret_hash(nonce) != v[i].client_nonce_hash,
    ensures
        poll_spec(prune_spec(v, now), v[i].session_id, nonce, now) == PollOutcome::BadNonce,
{
    lemma_find_kept(v, i, now);
}

proof fn lemma_pending_entries_from(v: Seq<SessionView>)
    ensures
        forall|k: int|
            0 <= k < pending_entries(v).len() ==> exists|j: int|
                0 <= j < v.len() && #[trigger] pending_entries(v)[k] == pending_entry(v[j]),
    decreases v.len(),
{
    if v.len() > 0 {
        let u = v.drop_last();
        lemma_pending_entries_from(u);
        assert forall|k: int| 0 <= k < pending_entries(v).len() implies exists|j: int|
            0 <= j < v.len() && #[trigger] pending_entries(v)[k] == pending_entry(v[j]) by {
            if k < pending_entries(u).len() {
                let j = choose|j: int| 0 <= j < u.len() && #[trigger] pending_entries(u)[k] == pending_entry(u[j]);
                assert(v[j] == u[j]);
            } else {
                assert(pending_entries(v)[k] == pending_entry(v[v.len() - 1]));
            }
        }
    }
}

proof fn lemma_pending_entries_has(v: Seq<SessionView>, i: int)
    requires
        0 <= i < v.len(),
        is_pending(v[i]),
    ensures
        pending_entries(v).contains(pending_entry(v[i])),
    decreases v.len(),
{
    let u = v.drop_last();
    if i < v.len() - 1 {
        lemma_pending_entries_has(u, i);
        assert(u[i] == v[i]);
        let k = choose|k: int| 0 <= k < pending_entries(u).len() && pending_entries(u)[k] == pending_entry(u[i]);
        if is_pending(v.last()) {
            assert(pending_entries(v)[k] == pending_entries(u)[k]);
        }
    } else {
        assert(pending_entries(v)[pending_entries(v).len() - 1] == pending_entry(v[i]));
    }
}

/// The pending list never shows a session that has expired.
pub proof fn law_expired_not_listed(v: Seq<SessionView>, now: u64)
    ensures
        forall|k: int|
            0 <= k < pending_entries(prune_spec(v, now)).len() ==> now <= (#[trigger] pending_entries(
                prune_spec(v, now),
            )[k]).7,
{
    let p = prune_spec(v, now);
    lemma_prune_live(v, now);
    lemma_pending_entries_from(p);
    assert forall|k: int| 0 <= k < pending_entries(p).len() implies now <= (#[trigger] pending_entries(p)[k]).7 by {
        let j = choose|j: int| 0 <= j < p.len() && #[trigger] pending_entries(p)[k] == pending_entry(p[j]);
        assert(now <= p[j].expires_at);
    }
}

/// A session just created is listed as pending at the time it was made.
pub proof fn law_created_is_listed(
    pruned: Seq<SessionView>,
    request: CreatePairingRequest,
    id: Seq<char>,
    code: Seq<char>,
    now: u64,
)
    ensures
        pending_entries(prune_spec(pruned.push(new_session(request, id, code, now)), now)).contains(
            pending_entry(new_session(request, id, code, now)),
        ),
{
    let w = pruned.push(new_session(request, id, code, now));
    lemma_prune_keeps(w, now, w.len() - 1);
    let p = prune_spec(w, now);
    let k = choose|k: int| 0 <= k < p.len() && #[trigger] p[k] == w[w.len() - 1];
    lemma_pending_entries_has(p, k);
}

/// A request's label cleaned, or `default` when it has none.
pub open spec fn cleaned_or(label: Option<String>, default: Seq<char>) -> Seq<char> {
    match clean_label_spec(opt_str_view(label)) {
        Some(l) => l,
        None => default,
    }
}

/// A session just created is listed among the pending ones with its id and
/// pairing code, the request's cleaned device name (`Android TV` by
/// default), device type (`android_tv` by default), app id and app version
/// (empty by default), and its creation time.
pub proof fn law_created_listing_labels(
    pruned: Seq<SessionView>,
    request: CreatePairingRequest,
    id: Seq<char>,
    code: Seq<char>,
    now: u64,
)
    ensures
        exists|e: (Seq<char>, Seq<char>, Seq<char>, Seq<char>, Seq<char>, Seq<char>, u64, u64)|
            #![trigger pending_entries(prune_spec(pruned.push(new_session(request, id, code, now)), now)).contains(e)]
            {
                &&& pending_entries(
                    prune_spec(pruned.push(new_session(request, id, code, now)), now),
                ).contains(e)
                &&& e.0 == id
                &&& e.1 == code
                &&& e.2 == cleaned_or(request.device_name, "Android TV"@)
                &&& e.3 == cleaned_or(request.device_type, "android_tv"@)
                &&& e.4 == cleaned_or(request.app_id, Seq::<char>::empty())
                &&& e.5 == cleaned_or(request.app_version, Seq::<char>::empty())
                &&& e.6 == now
            },
{
    law_created_is_listed(pruned, request, id, code, now);
    reveal_strlit("");
    let e = pending_entry(new_session(request, id, code, now));
    assert(""@ =~= Seq::<char>::empty());
    assert(pending_entries(prune_spec(pruned.push(new_session(request, id, code, now)), now)).contains(e));
}

/// No two pending sessions share a pairing code.
pub open spec fn pending_codes_unique(v: Seq<SessionView>) -> bool {
    forall|i: int, j: int|
        0 <= i < v.len() && 0 <= j < v.len() && i != j && is_pending(v[i]) && is_pending(v[j])
            ==> #[trigger] v[i].pairing_code != #[trigger] v[j].pairing_code
}

proof fn lemma_drawn_id_free(v: Seq<SessionView>, bytes: Seq<u8>, tries: nat)
    ensures
        draw_session_id(v, bytes, tries) matches Ok((id, _)) ==> !has_id(v, id),
    decreases tries,
{
    if tries > 0 && bytes.len() >= 16 && has_id(v, session_id_of(bytes.take(16))) {
        lemma_drawn_id_free(v, bytes.skip(16), (tries - 1) as nat);
    }
}

proof fn lemma_drawn_code_free(v: Seq<SessionView>, bytes: Seq<u8>, tries: nat)
    ensures
        draw_pairing_code(v, bytes, tries) matches Ok((code, _)) ==> !code_in_use(v, code),
    decreases tries,
{
    if tries > 0 && bytes.len() >= 4 && code_in_use(v, code_of(bytes.take(4))) {
        lemma_drawn_code_free(v, bytes.skip(4), (tries - 1) as nat);
    }
}

/// Pruning expired sessions keeps the pending codes distinct.
pub proof fn law_prune_keeps_codes_unique(v: Seq<SessionView>, now: u64)
    requires
        pending_codes_unique(v),
    ensures
        pending_codes_unique(prune_spec(v, now)),
    decreases v.len(),
{
    if v.len() > 0 {
        let u = v.drop_last();
        assert(pending_codes_unique(u)) by {
            assert forall|i: int, j: int|
                0 <= i < u.len() && 0 <= j < u.len() && i != j && is_pending(u[i]) && is_pending(
                    u[j],
                ) implies #[trigger] u[i].pairing_code != #[trigger] u[j].pairing_code by {
                assert(u[i] == v[i] && u[j] == v[j]);
            }
        }
        law_prune_keeps_codes_unique(u, now);
        lemma_prune_subset(u, now);
        if now <= v.last().expires_at {
            let p = prune_spec(u, now);
            let q = prune_spec(v, now);
            let last = v.len() - 1;
            assert forall|i: int, j: int|
                0 <= i < q.len() && 0 <= j < q.len() && i != j && is_pending(q[i]) && is_pending(
                    q[j],
                ) implies #[trigger] q[i].pairing_code != #[trigger] q[j].pairing_code by {
                if i < p.len() && j < p.len() {
                    assert(q[i] == p[i] && q[j] == p[j]);
                } else if i < p.len() {
                    let a = choose|a: int| 0 <= a < u.len() && u[a] == #[trigger] p[i];
                    assert(v[a] == u[a]);
                    assert(q[j] == v[last]);
                    assert(v[last].pairing_code != v[a].pairing_code);
                } else if j < p.len() {
                    let a = choose|a: int| 0 <= a < u.len() && u[a] == #[trigger] p[j];
                    assert(v[a] == u[a]);
                    assert(q[i] == v[last]);
                    assert(v[last].pairing_code != v[a].pairing_code);
                }
            }
        }
    }
}

/// Approving or rejecting a session keeps the pending codes distinct.
pub proof fn law_decision_keeps_codes_unique(v: Seq<SessionView>, i: int, status: StoredPairingStatus)
    requires
        pending_codes_unique(v),
        0 <= i < v.len(),
        !(status is Pending),
    ensures
        pending_codes_unique(with_status(v, i, status)),
{
    let w = with_status(v, i, status);
    assert forall|a: int, b: int|
        0 <= a < w.len() && 0 <= b < w.len() && a != b && is_pending(w[a]) && is_pending(w[b])
            implies #[trigger] w[a].pairing_code != #[trigger] w[b].pairing_code by {
        assert(a != i && b != i);
        assert(w[a] == v[a] && w[b] == v[b]);
    }
}

/// The session a create adds has an id no session had and a pairing code
/// no pending session had, so the pending codes stay distinct and an
/// approval or a rejection by code names one session.
pub proof fn law_create_keeps_codes_unique(
    pruned: Seq<SessionView>,
    bytes: Seq<u8>,
    request: CreatePairingRequest,
    now: u64,
)
    requires
        pending_codes_unique(pruned),
    ensures
        create_outcome(pruned, bytes) matches CreateOutcome::Created { session_id, pairing_code, rest }
            ==> !has_id(pruned, session_id) && !code_in_use(pruned, pairing_code)
            && pending_codes_unique(
            pruned.push(new_session(request, session_id, pairing_code, now)),
        ),
{
    reveal(create_outcome);
    lemma_drawn_id_free(pruned, bytes, 8);
    if let Ok((id, rest)) = draw_session_id(pruned, bytes, 8) {
        lemma_drawn_code_free(pruned, rest, 16);
        if let Ok((code, rest2)) = draw_pairing_code(pruned, rest, 16) {
            let w = pruned.push(new_session(request, id, code, now));
            let last = pruned.len() as int;
            assert forall|a: int, b: int|
                0 <= a < w.len() && 0 <= b < w.len() && a != b && is_pending(w[a]) && is_pending(
                    w[b],
                ) implies #[trigger] w[a].pairing_code != #[trigger] w[b].pairing_code by {
                if a < last && b < last {
                    assert(w[a] == pruned[a] && w[b] == pruned[b]);
                } else if a < last {
                    assert(w[a] == pruned[a]);
                    assert(!(pruned[a].pairing_code == code && is_pending(pruned[a])));
                } else {
                    assert(w[b] == pruned[b]);
                    assert(!(pruned[b].pairing_code == code && is_pending(pruned[b])));
                }
            }
        }
    }
}

/// Approving or rejecting by a code that a pending session holds acts on
/// that session, whatever older sessions hold the same code: with the
/// pending codes distinct it is the one pending session with the code.
pub proof fn law_decision_names_the_pending_session(
    v: Seq<SessionView>,
    i: int,
    code: Seq<char>,
    label: Option<Seq<char>>,
    now: u64,
)
    requires
        pending_codes_unique(v),
        0 <= i < v.len(),
        is_pending(v[i]),
        v[i].pairing_code == digits_only(code),
        now <= v[i].expires_at,
    ensures
        decision_index(v, digits_only(code)) == Some(i),
        candidate_spec(v, code, label, now) == Ok::<(Seq<char>, Seq<char>), (u16, Seq<char>, Seq<char>)>(
            (
                v[i].session_id,
                match clean_label_spec(label) {
                    Some(l) => l,
                    None => v[i].device_name,
                },
            ),
        ),
{
    lemma_index_of_pending_code(v, digits_only(code));
    if let Some(j) = index_of_pending_code(v, digits_only(code)) {
        if j != i {
            assert(v[j].pairing_code != v[i].pairing_code);
        }
    }
}

/// Rejecting by a code that a live session holds makes a poll of the
/// session it acts on, with that session's nonce and before it expires,
/// answer "rejected".
pub proof fn law_reject_then_poll(v: Seq<SessionView>, code: Seq<char>, nonce: Seq<char>, now: u64)
    requires
        ids_unique(v),
        decision_index(v, code) is Some,
        secret_hash(nonce) == v[decision_index(v, code)->0].client_nonce_hash,
        now <= v[decision_index(v, code)->0].expires_at,
    ensures
        ({
            let i = decision_index(v, code)->0;
            poll_spec(
                prune_spec(with_status(v, i, StoredPairingStatus::Rejected), now),
                v[i].session_id,
                nonce,
                now,
            ) == PollOutcome::Rejected
        }),
{
    let i = decision_index(v, code)->0;
    lemma_index_of_pending_code(v, code);
    lemma_index_of_code(v, code);
    let id = v[i].session_id;
    lemma_index_of_id(v, id);
    if let Some(k) = index_of_id(v, id) {
        if k != i {
            assert(v[k].session_id != v[i].session_id);
        }
    }
    law_poll_after_reject(v, id, nonce, now);
}

} // verus!
