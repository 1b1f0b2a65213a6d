//! HTTP/1.1 requests as the proxy reads them and responses as it writes them.
use vstd::prelude::*;
use vstd::utf8::{decode_utf8, encode_utf8, valid_utf8};

use crate::ctc::{utf8_len, utf8_length};
use crate::hex::hex_digit;
use crate::pairs::{assoc_from, lemma_assoc_from_push, pairs_view, upsert};
use crate::split::{
    find_char_in, lemma_find_char, lemma_split_on_nonempty, split_on, split_once_char,
    split_once_vec, split_vec,
};
use crate::text::{
    char_is_space, chars_of, dec, dec_chars, extend_chars, find, find_seq, is_space, lead_ws,
    lemma_dec_value, lemma_find_from_facts, lit, lower, slice_vec, string_of, to_lower, trim,
    trim_chars, trim_start, trim_start_chars,
};

verus! {

// ---------------------------------------------------------------------------
// Percent-decoding
// ---------------------------------------------------------------------------

pub open spec fn hex_val(b: u8) -> Option<int> {
    if 48 <= b <= 57 {
        Some(b - 48)
    } else if 97 <= b <= 102 {
        Some(b - 87)
    } else if 65 <= b <= 70 {
        Some(b - 55)
    } else {
        None
    }
}

/// The byte that the two bytes after a `%` stand for, as `u8::from_str_radix`
/// with radix 16 reads them (which takes a leading `+`).
pub open spec fn pct_byte(b1: u8, b2: u8) -> Option<u8> {
    if b1 == 43 {
        match hex_val(b2) {
            Some(v) => Some(v as u8),
            None => None,
        }
    } else {
        match (hex_val(b1), hex_val(b2)) {
            (Some(h), Some(l)) => Some((h * 16 + l) as u8),
            _ => None,
        }
    }
}

/// Form decoding of bytes from index `i`: `+` is a space, `%XX` the byte
/// it stands for (when followed by two more bytes that read as hex), any
/// other byte itself.
pub open spec fn pct_decode_from(b: Seq<u8>, i: int) -> Seq<u8>
    decreases b.len() - i,
{
    if i < 0 || i >= b.len() {
        seq![]
    } else if b[i] == 43 {
        seq![32u8] + pct_decode_from(b, i + 1)
    } else if b[i] == 37 && i + 2 < b.len() {
        match pct_byte(b[i + 1], b[i + 2]) {
            Some(v) => seq![v] + pct_decode_from(b, i + 3),
            None => seq![37u8] + pct_decode_from(b, i + 1),
        }
    } else {
        seq![b[i]] + pct_decode_from(b, i + 1)
    }
}

/// A byte that continues a UTF-8 character.
pub open spec fn is_continuation(b: u8) -> bool {
    0x80 <= b < 0xc0
}

/// Every two-byte piece after a `%` that the decoding from `i` reads ends
/// where a character ends, so that it can be cut out of the text.
pub open spec fn pct_slices_ok(b: Seq<u8>, i: int) -> bool
    decreases b.len() - i,
{
    if i < 0 || i >= b.len() {
        true
    } else if b[i] == 37 && i + 2 < b.len() {
        (i + 3 == b.len() || !is_continuation(b[i + 3])) && match pct_byte(b[i + 1], b[i + 2]) {
            Some(_) => pct_slices_ok(b, i + 3),
            None => pct_slices_ok(b, i + 1),
        }
    } else {
        pct_slices_ok(b, i + 1)
    }
}

/// Text decoded from UTF-8 with malformed sequences replaced.
pub uninterp spec fn utf8_lossy(bytes: Seq<u8>) -> Seq<char>;

/// `String::from_utf8_lossy`: the text of the bytes, each malformed sequence
/// replaced with U+FFFD; valid UTF-8 decodes as it is.
#[verifier::external_body]
fn utf8_lossy_string(bytes: &[u8]) -> (r: String)
    ensures
        r@ == utf8_lossy(bytes@),
        valid_utf8(bytes@) ==> r@ == decode_utf8(bytes@),
{
    String::from_utf8_lossy(bytes).into_owned()
}

/// A form-encoded value decoded into text.
pub open spec fn form_decode(s: Seq<char>) -> Seq<char> {
    utf8_lossy(pct_decode_from(encode_utf8(s), 0))
}

/// A form-encoded value that can be decoded without cutting a character.
pub open spec fn decodable(s: Seq<char>) -> bool {
    pct_slices_ok(encode_utf8(s), 0)
}

fn hex_value(b: u8) -> (r: Option<u8>)
    ensures
        match hex_val(b) {
            Some(v) => r matches Some(x) && x == v,
            None => r is None,
        },
{
    if 48 <= b && b <= 57 {
        Some(b - 48)
    } else if 97 <= b && b <= 102 {
        Some(b - 87)
    } else if 65 <= b && b <= 70 {
        Some(b - 55)
    } else {
        None
    }
}

fn pct_value(b1: u8, b2: u8) -> (r: Option<u8>)
    ensures
        r == pct_byte(b1, b2),
{
    if b1 == 43 {
        match hex_value(b2) {
            Some(v) => Some(v),
            None => None,
        }
    } else {
        match (hex_value(b1), hex_value(b2)) {
            (Some(h), Some(l)) => Some(h * 16 + l),
            _ => None,
        }
    }
}

/// Decodes a form-encoded value.
pub fn percent_decode(value: &str) -> (r: String)
    requires
        decodable(value@),
    ensures
        r@ == form_decode(value@),
{
    let b = value.as_bytes();
    let n = b.len();
    let mut out: Vec<u8> = Vec::new();
    let mut i: usize = 0;
    while i < n
        invariant
            n == b@.len(),
            b@ == encode_utf8(value@),
            i <= n,
            out@ + pct_decode_from(b@, i as int) == pct_decode_from(b@, 0),
        decreases n - i,
    {
        let (x, step): (u8, usize) = if b[i] == 43 {
            (32, 1)
        } else if b[i] == 37 && n - i > 2 {
            match pct_value(b[i + 1], b[i + 2]) {
                Some(v) => (v, 3),
                None => (37, 1),
            }
        } else {
            (b[i], 1)
        };
        assert(pct_decode_from(b@, i as int) == seq![x] + pct_decode_from(b@, i + step));
        let ghost before = out@;
        out.push(x);
        assert(out@ + pct_decode_from(b@, i + step) =~= before + (seq![x] + pct_decode_from(
            b@,
            i + step,
        )));
        i = i + step;
    }
    utf8_lossy_string(out.as_slice())
}

// ---------------------------------------------------------------------------
// Forms
// ---------------------------------------------------------------------------

/// The decoded `key=value` pairs of the pieces, in order; a piece without
/// `=` is skipped.
pub open spec fn form_entries(pieces: Seq<Seq<char>>) -> Seq<(Seq<char>, Seq<char>)>
    decreases pieces.len(),
{
    if pieces.len() == 0 {
        seq![]
    } else {
        let prev = form_entries(pieces.drop_last());
        match split_once_char(pieces.last(), '=') {
            Some((k, v)) => prev.push((form_decode(k), form_decode(v))),
            None => prev,
        }
    }
}

/// The fields of a form-encoded text; a key given twice keeps its last value.
pub open spec fn form_spec(text: Seq<char>) -> Seq<(Seq<char>, Seq<char>)> {
    assoc_from(form_entries(split_on(text, '&')))
}

/// Every key and value of the form can be decoded.
pub open spec fn form_decodable(text: Seq<char>) -> bool {
    forall|i: int|
        0 <= i < split_on(text, '&').len() ==> match split_once_char(
            #[trigger] split_on(text, '&')[i],
            '=',
        ) {
            Some((k, v)) => decodable(k) && decodable(v),
            None => true,
        }
}

/// Whether the decoding of every `%XX` of `bytes` cuts out whole characters.
fn slices_ok(b: &[u8]) -> (r: bool)
    ensures
        r == pct_slices_ok(b@, 0),
{
    let n = b.len();
    let mut i: usize = 0;
    while i < n
        invariant
            n == b@.len(),
            i <= n,
            pct_slices_ok(b@, 0) == pct_slices_ok(b@, i as int),
        decreases n - i,
    {
        if b[i] == 37 && n - i > 2 {
            if !(n - i == 3 || !(0x80 <= b[i + 3] && b[i + 3] < 0xc0)) {
                return false;
            }
            match pct_value(b[i + 1], b[i + 2]) {
                Some(_) => {
                    i = i + 3;
                },
                None => {
                    i = i + 1;
                },
            }
        } else {
            i = i + 1;
        }
    }
    true
}

pub fn is_decodable(value: &str) -> (r: bool)
    ensures
        r == decodable(value@),
{
    slices_ok(value.as_bytes())
}

/// Whether a form can be parsed without cutting a character.
pub fn is_form_decodable(text: &str) -> (r: bool)
    ensures
        r == form_decodable(text@),
{
    let t = chars_of(text);
    let pieces = split_vec(t.as_slice(), '&');
    let ghost pv = pieces@.map_values(|v: Vec<char>| v@);
    let mut i: usize = 0;
    while i < pieces.len()
        invariant
            pv == pieces@.map_values(|v: Vec<char>| v@),
            pv == split_on(text@, '&'),
            i <= pieces@.len(),
            forall|j: int|
                0 <= j < i ==> match split_once_char(#[trigger] pv[j], '=') {
                    Some((k, v)) => decodable(k) && decodable(v),
                    None => true,
                },
        decreases pieces@.len() - i,
    {
        assert(pv[i as int] == pieces@[i as int]@);
        match split_once_vec(pieces[i].as_slice(), '=') {
            Some((k, v)) => {
                let ks = string_of(k.as_slice());
                let vs = string_of(v.as_slice());
                if !is_decodable(ks.as_str()) || !is_decodable(vs.as_str()) {
                    return false;
                }
            },
            None => {},
        }
        i = i + 1;
    }
    true
}

/// The fields of a form-encoded text (`a=1&b=2`), decoded.
pub fn parse_form(body: &str) -> (r: Vec<(String, String)>)
    requires
        form_decodable(body@),
    ensures
        pairs_view(r@) == form_spec(body@),
{
    let t = chars_of(body);
    let pieces = split_vec(t.as_slice(), '&');
    let ghost pv = pieces@.map_values(|v: Vec<char>| v@);
    let mut out: Vec<(String, String)> = Vec::new();
    let mut i: usize = 0;
    while i < pieces.len()
        invariant
            pv == pieces@.map_values(|v: Vec<char>| v@),
            pv == split_on(body@, '&'),
            form_decodable(body@),
            i <= pieces@.len(),
            pairs_view(out@) == assoc_from(form_entries(pv.take(i as int))),
        decreases pieces@.len() - i,
    {
        assert(pv.take(i as int + 1).drop_last() =~= pv.take(i as int));
        assert(pv.take(i as int + 1).last() == pieces@[i as int]@);
        assert(pv[i as int] == pieces@[i as int]@);
        match split_once_vec(pieces[i].as_slice(), '=') {
            Some((k, v)) => {
                let ks = string_of(k.as_slice());
                let vs = string_of(v.as_slice());
                let key = percent_decode(ks.as_str());
                let value = percent_decode(vs.as_str());
                proof {
                    lemma_assoc_from_push(form_entries(pv.take(i as int)), (key@, value@));
                }
                upsert(&mut out, key, value);
            },
            None => {},
        }
        i = i + 1;
    }
    assert(pv.take(pieces@.len() as int) =~= pv);
    out
}

// ---------------------------------------------------------------------------
// Requests
// ---------------------------------------------------------------------------

/// A parsed request.
#[derive(Debug)]
pub struct Request {
    pub method: String,
    pub path: String,
    pub query: Vec<(String, String)>,
    pub headers: Vec<(String, String)>,
    pub body: String,
}

/// A line without the `\r` of a `\r\n` ending.
pub open spec fn strip_cr(s: Seq<char>) -> Seq<char> {
    if s.len() > 0 && s.last() == '\r' {
        s.drop_last()
    } else {
        s
    }
}

/// `str::lines`: the pieces between `\n`s, each without the `\r` of a
/// `\r\n`; a final empty piece is not a line.
pub open spec fn lines_spec(s: Seq<char>) -> Seq<Seq<char>> {
    let p = split_on(s, '\n');
    let init = p.drop_last().map_values(|l: Seq<char>| strip_cr(l));
    if p.last().len() > 0 {
        init.push(p.last())
    } else {
        init
    }
}

/// The first index at or after `from` of whitespace, or the length.
pub open spec fn space_from(s: Seq<char>, from: int) -> int
    decreases s.len() - from,
{
    if from < 0 || from >= s.len() {
        s.len() as int
    } else if is_space(s[from]) {
        from
    } else {
        space_from(s, from + 1)
    }
}

/// The first whitespace-separated word and what follows it.
pub open spec fn first_token(s: Seq<char>) -> Option<(Seq<char>, Seq<char>)> {
    let t = trim_start(s);
    if t.len() == 0 {
        None
    } else {
        let k = space_from(t, 0);
        Some((t.take(k), t.skip(k)))
    }
}

/// The `name: value` header lines, names trimmed and in lower case, values
/// trimmed; lines without `:` are skipped.
pub open spec fn header_entries(lines: Seq<Seq<char>>) -> Seq<(Seq<char>, Seq<char>)>
    decreases lines.len(),
{
    if lines.len() == 0 {
        seq![]
    } else {
        let prev = header_entries(lines.drop_last());
        match split_once_char(lines.last(), ':') {
            Some((k, v)) => prev.push((lower(trim(k)), trim(v))),
            None => prev,
        }
    }
}

/// The head and body of a request, split at the first empty line.
pub open spec fn head_body(raw: Seq<char>) -> (Seq<char>, Seq<char>) {
    match find(raw, "\r\n\r\n"@) {
        Some(i) => (raw.take(i), raw.skip(i + "\r\n\r\n"@.len())),
        None => (raw, seq![]),
    }
}

/// A request as read from its text: method, path, the raw query, headers
/// and body; or why it cannot be read.
pub open spec fn request_spec(raw: Seq<char>) -> Result<
    (Seq<char>, Seq<char>, Seq<char>, Seq<(Seq<char>, Seq<char>)>, Seq<char>),
    Seq<char>,
> {
    let (head, body) = head_body(raw);
    let lines = lines_spec(head);
    if lines.len() == 0 {
        Err("missing request line"@)
    } else {
        match first_token(lines[0]) {
            None => Err("missing method"@),
            Some((method, rest)) => match first_token(rest) {
                None => Err("missing target"@),
                Some((target, _)) => {
                    let (path, query) = match split_once_char(target, '?') {
                        Some((p, q)) => (p, q),
                        None => (target, seq![]),
                    };
                    Ok((method, path, query, assoc_from(header_entries(lines.skip(1))), body))
                },
            },
        }
    }
}

/// The query of the request can be decoded.
pub open spec fn request_decodable(raw: Seq<char>) -> bool {
    request_spec(raw) matches Ok(t) ==> form_decodable(t.2)
}

pub open spec fn request_matches(r: Request, t: (Seq<char>, Seq<char>, Seq<char>, Seq<(Seq<char>, Seq<char>)>, Seq<char>)) -> bool {
    &&& r.method@ == t.0
    &&& r.path@ == t.1
    &&& pairs_view(r.query@) == form_spec(t.2)
    &&& pairs_view(r.headers@) == t.3
    &&& r.body@ == t.4
}

fn space_index(s: &[char]) -> (r: usize)
    ensures
        r == space_from(s@, 0),
        r <= s@.len(),
{
    let mut i: usize = 0;
    while i < s.len()
        invariant
            i <= s@.len(),
            space_from(s@, 0) == space_from(s@, i as int),
        decreases s@.len() - i,
    {
        if char_is_space(s[i]) {
            return i;
        }
        i = i + 1;
    }
    i
}

proof fn lemma_space_from(s: Seq<char>, from: int)
    requires
        0 <= from <= s.len(),
    ensures
        from <= space_from(s, from) <= s.len(),
    decreases s.len() - from,
{
    if from < s.len() && !is_space(s[from]) {
        lemma_space_from(s, from + 1);
    }
}

fn first_token_of(s: &[char]) -> (r: Option<(Vec<char>, Vec<char>)>)
    ensures
        match first_token(s@) {
            Some((a, b)) => r matches Some((x, y)) && x@ == a && y@ == b,
            None => r is None,
        },
{
    let t = trim_start_chars(s);
    if t.len() == 0 {
        return None;
    }
    let k = space_index(t.as_slice());
    let a = slice_vec(t.as_slice(), 0, k);
    let b = slice_vec(t.as_slice(), k, t.len());
    assert(a@ =~= t@.take(k as int));
    assert(b@ =~= t@.skip(k as int));
    Some((a, b))
}

fn strip_cr_vec(s: Vec<char>) -> (r: Vec<char>)
    ensures
        r@ == strip_cr(s@),
{
    if s.len() > 0 && s[s.len() - 1] == '\r' {
        slice_vec(s.as_slice(), 0, s.len() - 1)
    } else {
        s
    }
}

fn lines_of(s: &[char]) -> (r: Vec<Vec<char>>)
    ensures
        r@.map_values(|v: Vec<char>| v@) == lines_spec(s@),
{
    let pieces = split_vec(s, '\n');
    let ghost pv = pieces@.map_values(|v: Vec<char>| v@);
    proof {
        lemma_split_on_nonempty(s@, '\n');
    }
    let n = pieces.len();
    let mut out: Vec<Vec<char>> = Vec::new();
    let mut i: usize = 0;
    while i + 1 < n
        invariant
            pv == pieces@.map_values(|v: Vec<char>| v@),
            pv == split_on(s@, '\n'),
            n == pieces@.len(),
            n >= 1,
            i < n,
            out@.map_values(|v: Vec<char>| v@) == pv.take(i as int).map_values(
                |l: Seq<char>| strip_cr(l),
            ),
        decreases n - i,
    {
        let line = strip_cr_vec(pieces[i].clone());
        let ghost before = out@.map_values(|v: Vec<char>| v@);
        out.push(line);
        assert(out@.map_values(|v: Vec<char>| v@) =~= before.push(line@));
        assert(pv.take(i + 1).map_values(|l: Seq<char>| strip_cr(l)) =~= pv.take(
            i as int,
        ).map_values(|l: Seq<char>| strip_cr(l)).push(strip_cr(pv[i as int])));
        i = i + 1;
    }
    assert(pv.take(i as int) =~= pv.drop_last());
    let last = pieces[n - 1].clone();
    if last.len() > 0 {
        let ghost before = out@.map_values(|v: Vec<char>| v@);
        out.push(last);
        assert(out@.map_values(|v: Vec<char>| v@) =~= before.push(pv.last()));
    }
    out
}

/// The parts of a request as its text gives them, the query undecoded.
fn request_parts(raw: &str) -> (r: Result<
    (Vec<char>, Vec<char>, Vec<char>, Vec<(String, String)>, Vec<char>),
    String,
>)
    ensures
        match request_spec(raw@) {
            Ok(t) => r matches Ok(p) && p.0@ == t.0 && p.1@ == t.1 && p.2@ == t.2 && pairs_view(
                p.3@,
            ) == t.3 && p.4@ == t.4,
            Err(m) => r matches Err(x) && x@ == m,
        },
{
    let text = chars_of(raw);
    let sep = lit("\r\n\r\n");
    proof {
        reveal_strlit("\r\n\r\n");
        lemma_find_from_facts(raw@, sep@, 0);
    }
    let n = text.len();
    let (head, body) = match find_seq(text.as_slice(), sep.as_slice()) {
        Some(i) => {
            let h = slice_vec(text.as_slice(), 0, i);
            let b = slice_vec(text.as_slice(), i + 4, n);
            assert(h@ =~= raw@.take(i as int));
            assert(b@ =~= raw@.skip(i + 4));
            (h, b)
        },
        None => {
            assert(text@.subrange(0, n as int) =~= text@);
            (slice_vec(text.as_slice(), 0, n), Vec::new())
        },
    };
    let lines = lines_of(head.as_slice());
    let ghost lv = lines@.map_values(|v: Vec<char>| v@);
    if lines.len() == 0 {
        return Err(String::from_str("missing request line"));
    }
    assert(lv[0] == lines@[0]@);
    let (method, rest) = match first_token_of(lines[0].as_slice()) {
        Some(x) => x,
        None => return Err(String::from_str("missing method")),
    };
    let (target, _) = match first_token_of(rest.as_slice()) {
        Some(x) => x,
        None => return Err(String::from_str("missing target")),
    };
    let (path, query) = match split_once_vec(target.as_slice(), '?') {
        Some((p, q)) => (p, q),
        None => (target, Vec::new()),
    };
    let mut headers: Vec<(String, String)> = Vec::new();
    let mut i: usize = 1;
    while i < lines.len()
        invariant
            lv == lines@.map_values(|v: Vec<char>| v@),
            1 <= i <= lines@.len(),
            pairs_view(headers@) == assoc_from(header_entries(lv.subrange(1, i as int))),
        decreases lines@.len() - i,
    {
        assert(lv.subrange(1, i + 1).drop_last() =~= lv.subrange(1, i as int));
        assert(lv.subrange(1, i + 1).last() == lines@[i as int]@);
        match split_once_vec(lines[i].as_slice(), ':') {
            Some((k, v)) => {
                let key = to_lower(trim_chars(k.as_slice()).as_slice());
                let value = trim_chars(v.as_slice());
                proof {
                    lemma_assoc_from_push(
                        header_entries(lv.subrange(1, i as int)),
                        (key@, value@),
                    );
                }
                upsert(&mut headers, string_of(key.as_slice()), string_of(value.as_slice()));
            },
            None => {},
        }
        i = i + 1;
    }
    assert(lv.subrange(1, lines@.len() as int) =~= lv.skip(1));
    Ok((method, path, query, headers, body))
}

/// Whether the query of a request can be decoded without cutting a
/// character.
pub fn is_request_decodable(raw: &str) -> (r: bool)
    ensures
        r == request_decodable(raw@),
{
    match request_parts(raw) {
        Err(_) => true,
        Ok((_, _, query, _, _)) => {
            let query_text = string_of(query.as_slice());
            is_form_decodable(query_text.as_str())
        },
    }
}

impl Request {
    /// Reads a request from its text.
    pub fn parse(raw: &str) -> (r: Result<Request, String>)
        requires
            request_decodable(raw@),
        ensures
            match request_spec(raw@) {
                Ok(t) => r matches Ok(req) && request_matches(req, t),
                Err(m) => r matches Err(x) && x@ == m,
            },
    {
        match request_parts(raw) {
            Err(e) => Err(e),
            Ok((method, path, query, headers, body)) => {
                let query_text = string_of(query.as_slice());
                Ok(
                    Request {
                        method: string_of(method.as_slice()),
                        path: string_of(path.as_slice()),
                        query: parse_form(query_text.as_str()),
                        headers,
                        body: string_of(body.as_slice()),
                    },
                )
            },
        }
    }
}

// ---------------------------------------------------------------------------
// Responses
// ---------------------------------------------------------------------------

/// The reason phrase written for a status code.
pub open spec fn reason_spec(status: u16) -> Seq<char> {
    if status == 200 {
        "OK"@
    } else if status == 400 {
        "Bad Request"@
    } else if status == 401 {
        "Unauthorized"@
    } else if status == 404 {
        "Not Found"@
    } else if status == 500 {
        "Internal Server Error"@
    } else if status == 503 {
        "Service Unavailable"@
    } else {
        "OK"@
    }
}

/// A complete response: status line, content type, the body's length in
/// bytes, `Connection: close`, and the body.
pub open spec fn response_spec(status: u16, content_type: Seq<char>, body: Seq<char>) -> Seq<char> {
    "HTTP/1.1 "@ + dec(status as nat) + " "@ + reason_spec(status) + "\r\nContent-Type: "@
        + content_type + "\r\nContent-Length: "@ + dec(utf8_len(body) as nat)
        + "\r\nConnection: close\r\n\r\n"@ + body
}

fn reason(status: u16) -> (r: &'static str)
    ensures
        r@ == reason_spec(status),
{
    if status == 200 {
        "OK"
    } else if status == 400 {
        "Bad Request"
    } else if status == 401 {
        "Unauthorized"
    } else if status == 404 {
        "Not Found"
    } else if status == 500 {
        "Internal Server Error"
    } else if status == 503 {
        "Service Unavailable"
    } else {
        "OK"
    }
}

proof fn lemma_utf8_len_nonneg(s: Seq<char>)
    ensures
        utf8_len(s) >= 0,
    decreases s.len(),
{
    if s.len() > 0 {
        lemma_utf8_len_nonneg(s.drop_last());
    }
}

pub fn response(status: u16, content_type: &str, body: String) -> (r: String)
    ensures
        r@ == response_spec(status, content_type@, body@),
{
    let mut out = lit("HTTP/1.1 ");
    extend_chars(&mut out, dec_chars(status as u128).as_slice());
    extend_chars(&mut out, lit(" ").as_slice());
    extend_chars(&mut out, lit(reason(status)).as_slice());
    extend_chars(&mut out, lit("\r\nContent-Type: ").as_slice());
    extend_chars(&mut out, chars_of(content_type).as_slice());
    extend_chars(&mut out, lit("\r\nContent-Length: ").as_slice());
    let b = chars_of(body.as_str());
    let len = utf8_length(b.as_slice());
    proof {
        lemma_utf8_len_nonneg(body@);
    }
    extend_chars(&mut out, dec_chars(len).as_slice());
    extend_chars(&mut out, lit("\r\nConnection: close\r\n\r\n").as_slice());
    extend_chars(&mut out, b.as_slice());
    string_of(out.as_slice())
}

/// How a character is written inside a JSON string: `"` and `\\` and the
/// control characters with a short form are escaped with a backslash, the
/// other control characters as `\u00` and two lower-case hex digits, and
/// every other character as it is.
pub open spec fn json_escape_char(c: char) -> Seq<char> {
    if c == '"' {
        seq!['\\', '"']
    } else if c == '\\' {
        seq!['\\', '\\']
    } else if c == '\u{8}' {
        seq!['\\', 'b']
    } else if c == '\t' {
        seq!['\\', 't']
    } else if c == '\n' {
        seq!['\\', 'n']
    } else if c == '\u{c}' {
        seq!['\\', 'f']
    } else if c == '\r' {
        seq!['\\', 'r']
    } else if (c as u32) < 0x20 {
        seq![
            '\\',
            'u',
            '0',
            '0',
            hex_digit(((c as u32) / 16) as u8),
            hex_digit(((c as u32) % 16) as u8),
        ]
    } else {
        seq![c]
    }
}

/// The characters of a string, each written as in a JSON string.
pub open spec fn json_escaped(s: Seq<char>) -> Seq<char>
    decreases s.len(),
{
    if s.len() == 0 {
        seq![]
    } else {
        json_escaped(s.drop_last()) + json_escape_char(s.last())
    }
}

/// A string as a JSON string literal, as `serde_json` writes it.
pub open spec fn json_quote(s: Seq<char>) -> Seq<char> {
    seq!['"'] + json_escaped(s) + seq!['"']
}

fn hex_digit_char(v: u32) -> (c: char)
    requires
        v < 16,
    ensures
        c == hex_digit(v as u8),
{
    if v < 10 {
        char_from_digit_code(v + 48)
    } else {
        char_from_digit_code(v + 87)
    }
}

fn char_from_digit_code(code: u32) -> (c: char)
    requires
        48 <= code < 58 || 97 <= code < 103,
    ensures
        c as u32 == code,
{
    if code < 58 {
        let d = (code - 48) as u8;
        let c = ('0' as u8 + d) as char;
        c
    } else {
        let d = (code - 97) as u8;
        let c = ('a' as u8 + d) as char;
        c
    }
}

fn push_escaped(out: &mut Vec<char>, c: char)
    ensures
        final(out)@ == old(out)@ + json_escape_char(c),
{
    if c == '"' {
        out.push('\\');
        out.push('"');
    } else if c == '\\' {
        out.push('\\');
        out.push('\\');
    } else if c == '\u{8}' {
        out.push('\\');
        out.push('b');
    } else if c == '\t' {
        out.push('\\');
        out.push('t');
    } else if c == '\n' {
        out.push('\\');
        out.push('n');
    } else if c == '\u{c}' {
        out.push('\\');
        out.push('f');
    } else if c == '\r' {
        out.push('\\');
        out.push('r');
    } else if (c as u32) < 0x20 {
        out.push('\\');
        out.push('u');
        out.push('0');
        out.push('0');
        out.push(hex_digit_char((c as u32) / 16));
        out.push(hex_digit_char((c as u32) % 16));
    } else {
        out.push(c);
    }
    assert(final(out)@ =~= old(out)@ + json_escape_char(c));
}

/// A string as a JSON string literal: quoted, with `"`, `\\` and control
/// characters escaped.
pub(crate) fn json_string(s: &str) -> (r: String)
    ensures
        r@ == json_quote(s@),
{
    let cs = chars_of(s);
    let mut out: Vec<char> = Vec::new();
    out.push('"');
    let mut i: usize = 0;
    while i < cs.len()
        invariant
            i <= cs@.len(),
            out@ == seq!['"'] + json_escaped(cs@.take(i as int)),
        decreases cs@.len() - i,
    {
        let ghost before = out@;
        push_escaped(&mut out, cs[i]);
        assert(cs@.take(i as int + 1).drop_last() =~= cs@.take(i as int));
        assert(out@ =~= seq!['"'] + json_escaped(cs@.take(i as int + 1)));
        i = i + 1;
    }
    assert(cs@.take(cs@.len() as int) =~= cs@);
    out.push('"');
    assert(out@ =~= json_quote(s@));
    string_of(out.as_slice())
}

/// The JSON body of an error.
pub open spec fn error_body(code: Seq<char>, message: Seq<char>) -> Seq<char> {
    "{\"error\":{\"code\":"@ + json_quote(code) + ",\"message\":"@ + json_quote(message) + "}}"@
}

/// An error response: `{"error":{"code":...,"message":...}}`.
pub fn json_error(status: u16, code: &str, message: &str) -> (r: String)
    ensures
        r@ == response_spec(status, "application/json"@, error_body(code@, message@)),
{
    let mut body = lit("{\"error\":{\"code\":");
    extend_chars(&mut body, chars_of(json_string(code).as_str()).as_slice());
    extend_chars(&mut body, lit(",\"message\":").as_slice());
    extend_chars(&mut body, chars_of(json_string(message).as_str()).as_slice());
    extend_chars(&mut body, lit("}}").as_slice());
    response(status, "application/json", string_of(body.as_slice()))
}

/// A JSON response with the given body.
pub fn json_response(status: u16, body: String) -> (r: String)
    ensures
        r@ == response_spec(status, "application/json"@, body@),
{
    response(status, "application/json", body)
}

/// `{"ok":true}`.
pub fn ok_response() -> (r: String)
    ensures
        r@ == response_spec(200, "application/json"@, "{\"ok\":true}"@),
{
    json_response(200, String::from_str("{\"ok\":true}"))
}

/// The status code of a response text: the second word of its first line,
/// or `unknown`.
pub open spec fn response_status_spec(response: Seq<char>) -> Seq<char> {
    let lines = lines_spec(response);
    if lines.len() == 0 {
        "unknown"@
    } else {
        match first_token(lines[0]) {
            Some((_, rest)) => match first_token(rest) {
                Some((code, _)) => code,
                None => "unknown"@,
            },
            None => "unknown"@,
        }
    }
}

/// `space_from` stops at the first whitespace at or after `from`.
proof fn lemma_space_at(s: Seq<char>, from: int, k: int)
    requires
        0 <= from <= k <= s.len(),
        forall|j: int| from <= j < k ==> !is_space(#[trigger] s[j]),
        k < s.len() ==> is_space(s[k]),
    ensures
        space_from(s, from) == k,
    decreases k - from,
{
    if from < k {
        lemma_space_at(s, from + 1, k);
    }
}

/// The digits of a number are decimal digits.
proof fn lemma_dec_digits(n: nat)
    ensures
        forall|i: int| 0 <= i < dec(n).len() ==> '0' <= #[trigger] dec(n)[i] <= '9',
    decreases n,
{
    if n >= 10 {
        lemma_dec_digits(n / 10);
        assert forall|i: int| 0 <= i < dec(n).len() implies '0' <= #[trigger] dec(n)[i] <= '9' by {
            if i < dec(n / 10).len() {
                assert(dec(n)[i] == dec(n / 10)[i]);
            }
        }
    }
}

/// The reason phrases hold no line break and do not start with whitespace.
proof fn lemma_reason_chars(status: u16)
    ensures
        forall|i: int| 0 <= i < reason_spec(status).len() ==> #[trigger] reason_spec(status)[i] != '\n',
{
    reveal_strlit("OK");
    reveal_strlit("Bad Request");
    reveal_strlit("Unauthorized");
    reveal_strlit("Not Found");
    reveal_strlit("Internal Server Error");
    reveal_strlit("Service Unavailable");
}

/// The status line of a response: protocol, code and reason phrase.
pub open spec fn status_line(status: u16) -> Seq<char> {
    "HTTP/1.1 "@ + dec(status as nat) + " "@ + reason_spec(status)
}

/// The first line of a response is its status line.
#[verifier::spinoff_prover]
proof fn lemma_first_line(status: u16, content_type: Seq<char>, body: Seq<char>)
    ensures
        lines_spec(response_spec(status, content_type, body)).len() > 0,
        lines_spec(response_spec(status, content_type, body))[0] == status_line(status),
{
    reveal_strlit("HTTP/1.1 ");
    reveal_strlit(" ");
    reveal_strlit("\r\nContent-Type: ");
    let d = dec(status as nat);
    let reason = reason_spec(status);
    lemma_dec_digits(status as nat);
    lemma_reason_chars(status);
    let line = status_line(status);
    let l0 = line + seq!['\r'];
    let r = response_spec(status, content_type, body);
    let rest = r.skip(l0.len() + 1int);
    assert(r =~= l0 + seq!['\n'] + rest);
    assert forall|j: int| 0 <= j < l0.len() implies r[j] != '\n' by {
        assert(r[j] == l0[j]);
        if 9 <= j < 9 + d.len() {
            assert(l0[j] == d[j - 9]);
        } else if 10 + d.len() <= j < 10 + d.len() + reason.len() {
            assert(l0[j] == reason[j - 10 - d.len()]);
        }
    }
    assert(r[l0.len() as int] == '\n');
    lemma_find_char(r, '\n', Some(l0.len() as int));
    assert(r.take(l0.len() as int) =~= l0);
    lemma_split_on_nonempty(rest, '\n');
    let p = split_on(r, '\n');
    assert(p[0] == l0);
    assert(p.len() >= 2);
    assert(strip_cr(l0) =~= line);
}

/// The second word of a status line is the code.
#[verifier::spinoff_prover]
proof fn lemma_status_code_word(status: u16)
    ensures
        first_token(status_line(status)) matches Some((_, rest)) && first_token(rest) matches Some(
            (code, _),
        ) && code == dec(status as nat),
{
    reveal_strlit("HTTP/1.1 ");
    reveal_strlit(" ");
    let d = dec(status as nat);
    let reason = reason_spec(status);
    lemma_dec_value(status as nat);
    lemma_dec_digits(status as nat);
    let line = status_line(status);
    assert(lead_ws(line) == 0);
    assert(trim_start(line) =~= line);
    assert forall|j: int| 0 <= j < 8 implies !is_space(#[trigger] line[j]) by {}
    lemma_space_at(line, 0, 8);
    let after = line.skip(8);
    assert(after =~= " "@ + d + " "@ + reason);
    assert(lead_ws(after.drop_first()) == 0) by {
        assert(after.drop_first()[0] == d[0]);
    }
    assert(lead_ws(after) == 1);
    let t = trim_start(after);
    assert(t =~= d + " "@ + reason);
    assert forall|j: int| 0 <= j < d.len() implies !is_space(#[trigger] t[j]) by {
        assert(t[j] == d[j]);
    }
    lemma_space_at(t, 0, d.len() as int);
    assert(t.take(d.len() as int) =~= d);
}

/// The status read back from a response built for `status` is the decimal
/// code of `status`.
pub proof fn law_response_status_reads_back(status: u16, content_type: Seq<char>, body: Seq<char>)
    ensures
        response_status_spec(response_spec(status, content_type, body)) == dec(status as nat),
{
    lemma_first_line(status, content_type, body);
    lemma_status_code_word(status);
}

proof fn lemma_utf8_len_front(s: Seq<char>)
    requires
        s.len() > 0,
    ensures
        utf8_len(s) == crate::ctc::utf8_width(s[0]) + utf8_len(s.drop_first()),
    decreases s.len(),
{
    if s.len() == 1 {
        assert(s.drop_last() =~= Seq::<char>::empty());
        assert(s.drop_first() =~= Seq::<char>::empty());
    } else {
        lemma_utf8_len_front(s.drop_last());
        assert(s.drop_last().drop_first() =~= s.drop_first().drop_last());
        assert(s.drop_first().last() == s.last());
        assert(s.drop_last()[0] == s[0]);
    }
}

proof fn lemma_encoded_len(s: Seq<char>)
    ensures
        encode_utf8(s).len() == utf8_len(s),
    decreases s.len(),
{
    if s.len() > 0 {
        lemma_encoded_len(s.drop_first());
        lemma_utf8_len_front(s);
        let c = s[0];
        vstd::utf8::char_is_scalar(c);
        assert(vstd::utf8::encode_scalar(c as u32).len() == crate::ctc::utf8_width(c));
    }
}

/// The `Content-Length` of a response is the number of bytes of its body in
/// UTF-8, and the body follows the header block.
pub proof fn law_content_length_is_utf8_bytes(status: u16, content_type: Seq<char>, body: Seq<char>)
    ensures
        exists|head: Seq<char>|
            #[trigger] (head + "\r\nContent-Length: "@) + dec(encode_utf8(body).len())
                + "\r\nConnection: close\r\n\r\n"@ + body == response_spec(status, content_type, body),
{
    lemma_encoded_len(body);
    let head = "HTTP/1.1 "@ + dec(status as nat) + " "@ + reason_spec(status) + "\r\nContent-Type: "@
        + content_type;
    assert((head + "\r\nContent-Length: "@) + dec(encode_utf8(body).len()) + "\r\nConnection: close\r\n\r\n"@
        + body == response_spec(status, content_type, body));
}

pub fn response_status(response: &str) -> (r: String)
    ensures
        r@ == response_status_spec(response@),
{
    let text = chars_of(response);
    let lines = lines_of(text.as_slice());
    let ghost lv = lines@.map_values(|v: Vec<char>| v@);
    if lines.len() == 0 {
        return String::from_str("unknown");
    }
    assert(lv[0] == lines@[0]@);
    match first_token_of(lines[0].as_slice()) {
        Some((_, rest)) => match first_token_of(rest.as_slice()) {
            Some((code, _)) => string_of(code.as_slice()),
            None => String::from_str("unknown"),
        },
        None => String::from_str("unknown"),
    }
}

} // verus!
