//! The provider's IPTV portal: the markup and JSON it answers with, the
//! authenticator it expects, and the login and channel-list exchanges.
use vstd::prelude::*;

use crate::pairs::{
    assoc_from, assoc_get, lemma_assoc_from_push, lookup, pairs_view, upsert,
};
use crate::split::{
    before_char, before_char_vec, find_char_in, last_index_of, rfind_char, split_on,
    split_once_char, split_once_vec, split_vec,
};
use crate::text::{
    char_is_digit, char_is_space, chars_of, contains, dec, dec_chars, extend_chars, find,
    find_from, find_seq, find_seq_from, is_digit, is_space, lemma_find_from_facts, lit, lower,
    seq_equal, slice_vec, string_of, to_lower, trim, trim_chars, trim_matches, trim_matches_chars,
    trim_start, trim_start_chars,
};
use vstd::utf8::encode_utf8;

use crate::cache::Program;
use crate::config::{override_lookup, ChannelNumberOverrides};
use crate::hex::{hex_of, lemma_hex_chars, lemma_hex_len, to_hex};
use crate::numbering::{all_distinct, assign_numbers, numbers_assigned};
use crate::text::{parse_unsigned, parse_unsigned_spec};

verus! {

// ---------------------------------------------------------------------------
// Quoted values and markers
// ---------------------------------------------------------------------------

pub open spec fn is_quote(c: char) -> bool {
    c == '\'' || c == '"'
}

/// The first index at or after `from` holding a quote character.
pub open spec fn quote_from(s: Seq<char>, from: int) -> Option<int>
    decreases s.len() - from,
{
    if from < 0 || from >= s.len() {
        None
    } else if is_quote(s[from]) {
        Some(from)
    } else {
        quote_from(s, from + 1)
    }
}

/// The first quoted value in `s` and what follows its closing quote; the
/// value is closed by the same quote character that opened it.
pub open spec fn next_quoted_spec(s: Seq<char>) -> Option<(Seq<char>, Seq<char>)> {
    match quote_from(s, 0) {
        None => None,
        Some(st) => {
            let body = s.skip(st + 1);
            match find(body, seq![s[st]]) {
                None => None,
                Some(e) => Some((body.take(e), body.skip(e + 1))),
            }
        },
    }
}

/// The part of `s` before the first occurrence of `p`, or all of `s`.
pub open spec fn piece_before(s: Seq<char>, p: Seq<char>) -> Seq<char> {
    match find(s, p) {
        Some(i) => s.take(i),
        None => s,
    }
}

/// The text between the first `start` and the next `end` (or the next
/// `start`, whichever comes first; `end` alone when the text has no
/// further `start`).
pub open spec fn between_spec(t: Seq<char>, start: Seq<char>, end: Seq<char>) -> Option<Seq<char>> {
    match find(t, start) {
        None => None,
        Some(i) => Some(piece_before(piece_before(t.skip(i + start.len()), start), end)),
    }
}

proof fn lemma_quote_from(s: Seq<char>, from: int)
    requires
        0 <= from,
    ensures
        quote_from(s, from) matches Some(i) ==> from <= i < s.len() && is_quote(s[i]) && forall|
            j: int,
        |
            from <= j < i ==> !is_quote(s[j]),
        quote_from(s, from) is None ==> forall|j: int| from <= j < s.len() ==> !is_quote(s[j]),
    decreases s.len() - from,
{
    if from < s.len() && !is_quote(s[from]) {
        lemma_quote_from(s, from + 1);
    }
}

proof fn lemma_find_bounds(s: Seq<char>, p: Seq<char>)
    ensures
        find(s, p) matches Some(i) ==> 0 <= i && i + p.len() <= s.len() && s.subrange(i, i + p.len())
            == p,
{
    lemma_find_from_facts(s, p, 0);
}

proof fn lemma_next_quoted_shorter(s: Seq<char>)
    ensures
        next_quoted_spec(s) matches Some((v, r)) ==> r.len() < s.len(),
{
    lemma_quote_from(s, 0);
    if let Some(st) = quote_from(s, 0) {
        lemma_find_bounds(s.skip(st + 1), seq![s[st]]);
    }
}

fn first_quote(s: &[char]) -> (r: Option<usize>)
    ensures
        r matches Some(i) ==> quote_from(s@, 0) == Some(i as int),
        r is None ==> quote_from(s@, 0) is None,
{
    let mut i: usize = 0;
    while i < s.len()
        invariant
            i <= s@.len(),
            quote_from(s@, 0) == quote_from(s@, i as int),
        decreases s@.len() - i,
    {
        if s[i] == '\'' || s[i] == '"' {
            return Some(i);
        }
        i = i + 1;
    }
    None
}

/// The first quoted value and the text after it.
pub fn next_quoted(s: &[char]) -> (r: Option<(Vec<char>, Vec<char>)>)
    ensures
        match next_quoted_spec(s@) {
            Some((v, rest)) => r matches Some((x, y)) && x@ == v && y@ == rest,
            None => r is None,
        },
{
    let n = s.len();
    let st = match first_quote(s) {
        Some(st) => st,
        None => return None,
    };
    proof {
        lemma_quote_from(s@, 0);
    }
    let q = s[st];
    match find_char_in(s, q, st + 1) {
        Some(e) => {
            let v = slice_vec(s, st + 1, e);
            let rest = slice_vec(s, e + 1, n);
            proof {
                let body = s@.skip(st + 1);
                assert(v@ =~= body.take(e - st - 1));
                assert(rest@ =~= body.skip(e - st - 1 + 1));
            }
            Some((v, rest))
        },
        None => None,
    }
}

/// The part of `s` before the first `p`, or all of `s`.
fn piece_before_vec(s: &[char], p: &[char]) -> (r: Vec<char>)
    ensures
        r@ == piece_before(s@, p@),
{
    proof {
        lemma_find_bounds(s@, p@);
    }
    match find_seq(s, p) {
        Some(i) => slice_vec(s, 0, i),
        None => slice_vec(s, 0, s.len()),
    }
}

/// The text between the first `start` and the following `end`.
pub fn between(text: &[char], start: &[char], end: &[char]) -> (r: Option<Vec<char>>)
    ensures
        match between_spec(text@, start@, end@) {
            Some(v) => r matches Some(x) && x@ == v,
            None => r is None,
        },
{
    proof {
        lemma_find_bounds(text@, start@);
    }
    let n = text.len();
    match find_seq(text, start) {
        Some(i) => {
            let after = slice_vec(text, i + start.len(), n);
            assert(after@ =~= text@.skip(i + start@.len()));
            let piece = piece_before_vec(after.as_slice(), start);
            Some(piece_before_vec(piece.as_slice(), end))
        },
        None => None,
    }
}

pub open spec fn encry_token_spec(html: Seq<char>) -> Option<Seq<char>> {
    between_spec(html, "Authentication.CTCGetAuthInfo('"@, "')"@)
}

/// The token that the login page hands to `CTCGetAuthInfo`.
pub fn parse_encry_token(html: &str) -> (r: Option<String>)
    ensures
        match encry_token_spec(html@) {
            Some(v) => r matches Some(x) && x@ == v,
            None => r is None,
        },
{
    let h = chars_of(html);
    match between(h.as_slice(), lit("Authentication.CTCGetAuthInfo('").as_slice(), lit("')").as_slice()) {
        Some(v) => Some(string_of(v.as_slice())),
        None => None,
    }
}

// ---------------------------------------------------------------------------
// CTCSetConfig entries
// ---------------------------------------------------------------------------

/// The key/value pairs of the `Authentication.CTCSetConfig('key', 'value')`
/// calls in `rest`, in order.
pub open spec fn set_config_entries(rest: Seq<char>) -> Seq<(Seq<char>, Seq<char>)>
    decreases rest.len(),
{
    match find(rest, "Authentication.CTCSetConfig"@) {
        None => seq![],
        Some(i) => {
            let after = rest.skip(i + "Authentication.CTCSetConfig"@.len());
            if 0 <= i && after.len() < rest.len() {
                match next_quoted_spec(after) {
                    Some((k, ak)) => match next_quoted_spec(ak) {
                        Some((v, av)) => if av.len() < rest.len() {
                            seq![(k, v)] + set_config_entries(av)
                        } else {
                            seq![]
                        },
                        None => set_config_entries(after),
                    },
                    None => set_config_entries(after),
                }
            } else {
                seq![]
            }
        },
    }
}

/// The CTCSetConfig settings of a page; a key set twice keeps its last value.
pub fn parse_set_config(html: &str) -> (r: Vec<(String, String)>)
    ensures
        pairs_view(r@) == assoc_from(set_config_entries(html@)),
{
    let marker = lit("Authentication.CTCSetConfig");
    proof {
        reveal_strlit("Authentication.CTCSetConfig");
    }
    let mut out: Vec<(String, String)> = Vec::new();
    let mut rest = chars_of(html);
    let ghost mut seen: Seq<(Seq<char>, Seq<char>)> = seq![];
    loop
        invariant
            marker@ == "Authentication.CTCSetConfig"@,
            marker@.len() == 27,
            seen + set_config_entries(rest@) == set_config_entries(html@),
            pairs_view(out@) == assoc_from(seen),
        decreases rest@.len(),
    {
        proof {
            lemma_find_bounds(rest@, marker@);
        }
        let n = rest.len();
        let i = match find_seq(rest.as_slice(), marker.as_slice()) {
            Some(i) => i,
            None => {
                assert(seen + seq![] =~= seen);
                return out;
            },
        };
        let after = slice_vec(rest.as_slice(), i + 27, n);
        assert(after@ =~= rest@.skip(i + 27));
        proof {
            lemma_next_quoted_shorter(after@);
        }
        match next_quoted(after.as_slice()) {
            Some((k, ak)) => {
                proof {
                    lemma_next_quoted_shorter(ak@);
                }
                match next_quoted(ak.as_slice()) {
                    Some((v, av)) => {
                        let ghost entry = (k@, v@);
                        proof {
                            assert(set_config_entries(rest@) == seq![entry] + set_config_entries(av@));
                            assert(seen.push(entry) + set_config_entries(av@) =~= seen + (seq![entry]
                                + set_config_entries(av@)));
                            lemma_assoc_from_push(seen, entry);
                            seen = seen.push(entry);
                        }
                        upsert(&mut out, string_of(k.as_slice()), string_of(v.as_slice()));
                        rest = av;
                    },
                    None => {
                        rest = after;
                    },
                }
            },
            None => {
                rest = after;
            },
        }
    }
}

// ---------------------------------------------------------------------------
// Redirects, cookies and URLs
// ---------------------------------------------------------------------------

/// The URL that a page's `document.location = '...'` script assigns.
pub open spec fn document_location_spec(html: Seq<char>) -> Option<Seq<char>> {
    match find(html, "document.location"@) {
        None => None,
        Some(i) => {
            let a = trim_start(html.skip(i + "document.location"@.len()));
            if a.len() > 0 && a[0] == '=' {
                let b = trim_start(a.skip(1));
                if b.len() > 0 && is_quote(b[0]) {
                    Some(before_char(b.skip(1), b[0]))
                } else {
                    None
                }
            } else {
                None
            }
        },
    }
}

pub fn parse_document_location(html: &str) -> (r: Option<String>)
    ensures
        match document_location_spec(html@) {
            Some(v) => r matches Some(x) && x@ == v,
            None => r is None,
        },
{
    let h = chars_of(html);
    let marker = lit("document.location");
    proof {
        reveal_strlit("document.location");
        lemma_find_bounds(h@, marker@);
    }
    let n = h.len();
    let i = match find_seq(h.as_slice(), marker.as_slice()) {
        Some(i) => i,
        None => return None,
    };
    let after = slice_vec(h.as_slice(), i + 17, n);
    assert(after@ =~= html@.skip(i + "document.location"@.len()));
    let a = trim_start_chars(after.as_slice());
    if a.len() == 0 || a[0] != '=' {
        return None;
    }
    let a1 = slice_vec(a.as_slice(), 1, a.len());
    assert(a1@ =~= a@.skip(1));
    let b = trim_start_chars(a1.as_slice());
    if b.len() == 0 || !(b[0] == '\'' || b[0] == '"') {
        return None;
    }
    let b1 = slice_vec(b.as_slice(), 1, b.len());
    assert(b1@ =~= b@.skip(1));
    let v = before_char_vec(b1.as_slice(), b[0]);
    Some(string_of(v.as_slice()))
}

/// The value of cookie `name` in a `Set-Cookie` header.
pub open spec fn cookie_value_spec(header: Seq<char>, name: Seq<char>) -> Option<Seq<char>> {
    let key = name.push('=');
    match find(header, key) {
        None => None,
        Some(i) => Some(before_char(header.skip(i + key.len()), ';')),
    }
}

pub fn parse_cookie_value(header: &str, name: &str) -> (r: Option<String>)
    ensures
        match cookie_value_spec(header@, name@) {
            Some(v) => r matches Some(x) && x@ == v,
            None => r is None,
        },
{
    let h = chars_of(header);
    let mut key = chars_of(name);
    key.push('=');
    proof {
        lemma_find_bounds(h@, key@);
    }
    let n = h.len();
    match find_seq(h.as_slice(), key.as_slice()) {
        Some(i) => {
            let rest = slice_vec(h.as_slice(), i + key.len(), n);
            let v = before_char_vec(rest.as_slice(), ';');
            Some(string_of(v.as_slice()))
        },
        None => None,
    }
}

/// The path of a URL: what follows the authority, without the query; the
/// URL itself (without query) when it has no `scheme://host/`.
pub open spec fn url_path(url: Seq<char>) -> Seq<char> {
    let wq = before_char(url, '?');
    match find(wq, "://"@) {
        Some(i) => {
            let rest = wq.skip(i + "://"@.len());
            match find(rest, seq!['/']) {
                Some(p) => rest.skip(p),
                None => wq,
            }
        },
        None => wq,
    }
}

/// A log label for an exchange with the portal that leaves out the query
/// and its credentials.
pub open spec fn http_context_spec(method: Seq<char>, url: Seq<char>) -> Seq<char> {
    "ctc "@ + method + " "@ + url_path(url)
}

fn url_path_vec(url: &[char]) -> (r: Vec<char>)
    ensures
        r@ == url_path(url@),
{
    let wq = before_char_vec(url, '?');
    let sep = lit("://");
    proof {
        reveal_strlit("://");
        lemma_find_bounds(wq@, sep@);
    }
    let n = wq.len();
    match find_seq(wq.as_slice(), sep.as_slice()) {
        Some(i) => {
            let rest = slice_vec(wq.as_slice(), i + 3, n);
            assert(rest@ =~= wq@.skip(i + "://"@.len()));
            assert(rest@.skip(0) =~= rest@);
            match find_char_in(rest.as_slice(), '/', 0) {
                Some(p) => slice_vec(rest.as_slice(), p, rest.len()),
                None => wq,
            }
        },
        None => wq,
    }
}

pub fn http_context(method: &str, url: &str) -> (r: String)
    ensures
        r@ == http_context_spec(method@, url@),
{
    let mut out = lit("ctc ");
    extend_chars(&mut out, chars_of(method).as_slice());
    extend_chars(&mut out, lit(" ").as_slice());
    let u = chars_of(url);
    extend_chars(&mut out, url_path_vec(u.as_slice()).as_slice());
    string_of(out.as_slice())
}

/// The base URL of the portal's pages: scheme, authority and the directory
/// of the path, without the query.
pub open spec fn epg_base_spec(url: Seq<char>) -> Seq<char> {
    let wq = before_char(url, '?');
    let (scheme, rest) = match find(wq, "://"@) {
        Some(i) => (wq.take(i), wq.skip(i + "://"@.len())),
        None => ("http"@, wq),
    };
    let (authority, path) = match find(rest, seq!['/']) {
        Some(p) => (rest.take(p), rest.skip(p)),
        None => (rest, "/"@),
    };
    let dir = match last_index_of(path, '/') {
        Some(k) => path.take(k + 1),
        None => "/"@,
    };
    scheme + "://"@ + authority + dir
}

proof fn lemma_last_index_of(s: Seq<char>, c: char)
    ensures
        last_index_of(s, c) matches Some(k) ==> 0 <= k < s.len(),
    decreases s.len(),
{
    if s.len() > 0 && s.last() != c {
        lemma_last_index_of(s.drop_last(), c);
    }
}

pub fn epg_base_from_url(url: &str) -> (r: String)
    ensures
        r@ == epg_base_spec(url@),
{
    let u = chars_of(url);
    let wq = before_char_vec(u.as_slice(), '?');
    let sep = lit("://");
    proof {
        reveal_strlit("://");
        lemma_find_bounds(wq@, sep@);
    }
    let n = wq.len();
    let (scheme, rest) = match find_seq(wq.as_slice(), sep.as_slice()) {
        Some(i) => {
            let s = slice_vec(wq.as_slice(), 0, i);
            let r = slice_vec(wq.as_slice(), i + 3, n);
            assert(r@ =~= wq@.skip(i + "://"@.len()));
            assert(s@ =~= wq@.take(i as int));
            (s, r)
        },
        None => {
            let r = slice_vec(wq.as_slice(), 0, n);
            assert(r@ =~= wq@);
            (lit("http"), r)
        },
    };
    assert(rest@.skip(0) =~= rest@);
    let rn = rest.len();
    let (authority, path) = match find_char_in(rest.as_slice(), '/', 0) {
        Some(p) => {
            let a = slice_vec(rest.as_slice(), 0, p);
            let b = slice_vec(rest.as_slice(), p, rn);
            assert(a@ =~= rest@.take(p as int));
            assert(b@ =~= rest@.skip(p as int));
            (a, b)
        },
        None => {
            let a = slice_vec(rest.as_slice(), 0, rn);
            assert(a@ =~= rest@);
            (a, lit("/"))
        },
    };
    proof {
        lemma_last_index_of(path@, '/');
    }
    let pn = path.len();
    let dir = match rfind_char(path.as_slice(), '/') {
        Some(k) => {
            let d = slice_vec(path.as_slice(), 0, k + 1);
            assert(d@ =~= path@.take(k + 1));
            d
        },
        None => lit("/"),
    };
    let mut out = scheme;
    extend_chars(&mut out, sep.as_slice());
    extend_chars(&mut out, authority.as_slice());
    extend_chars(&mut out, dir.as_slice());
    proof {
        reveal_strlit("http");
        reveal_strlit("/");
    }
    string_of(out.as_slice())
}

// ---------------------------------------------------------------------------
// Query components and the programme-list URL
// ---------------------------------------------------------------------------

/// The bytes that go into a query component as they are.
pub open spec fn unreserved(b: u8) -> bool {
    (48 <= b <= 57) || (65 <= b <= 90) || (97 <= b <= 122) || b == 45 || b == 95 || b == 46 || b
        == 126
}

/// The upper-case hex digit for a value below 16.
pub open spec fn hex_upper(v: u8) -> char {
    if v < 10 {
        ((v + 48) as u8) as char
    } else {
        ((v + 55) as u8) as char
    }
}

pub open spec fn encode_byte(b: u8) -> Seq<char> {
    if unreserved(b) {
        seq![b as char]
    } else {
        seq!['%', hex_upper(b / 16), hex_upper(b % 16)]
    }
}

/// Percent-encoding of UTF-8 bytes: unreserved bytes stay, every other
/// byte becomes `%XX`.
pub open spec fn query_encode(bytes: Seq<u8>) -> Seq<char>
    decreases bytes.len(),
{
    if bytes.len() == 0 {
        seq![]
    } else {
        query_encode(bytes.drop_last()) + encode_byte(bytes.last())
    }
}

fn hex_upper_char(v: u8) -> (c: char)
    requires
        v < 16,
    ensures
        c == hex_upper(v),
{
    if v < 10 {
        (v + 48) as char
    } else {
        (v + 55) as char
    }
}

/// Percent-encodes a query component.
pub fn encode_query_component(value: &str) -> (r: Vec<char>)
    ensures
        r@ == query_encode(encode_utf8(value@)),
{
    let bytes = value.as_bytes();
    let mut out: Vec<char> = Vec::new();
    let mut i: usize = 0;
    while i < bytes.len()
        invariant
            bytes@ == encode_utf8(value@),
            i <= bytes@.len(),
            out@ == query_encode(bytes@.take(i as int)),
        decreases bytes@.len() - i,
    {
        let b = bytes[i];
        let ghost before = out@;
        if (48 <= b && b <= 57) || (65 <= b && b <= 90) || (97 <= b && b <= 122) || b == 45 || b
            == 95 || b == 46 || b == 126 {
            out.push(b as char);
        } else {
            out.push('%');
            out.push(hex_upper_char(b / 16));
            out.push(hex_upper_char(b % 16));
        }
        assert(bytes@.take(i as int + 1).drop_last() =~= bytes@.take(i as int));
        assert(out@ =~= before + encode_byte(b));
        i = i + 1;
    }
    assert(bytes@.take(bytes@.len() as int) =~= bytes@);
    out
}

/// The decimal form of an integer, with a leading `-` when negative.
pub open spec fn int_dec(i: int) -> Seq<char> {
    if i < 0 {
        seq!['-'] + dec((-i) as nat)
    } else {
        dec(i as nat)
    }
}

fn i32_dec(v: i32) -> (r: Vec<char>)
    ensures
        r@ == int_dec(v as int),
{
    if v < 0 {
        let m: i64 = -(v as i64);
        let mut r: Vec<char> = Vec::new();
        r.push('-');
        let digits = dec_chars(m as u128);
        extend_chars(&mut r, digits.as_slice());
        assert(r@ =~= seq!['-'] + dec((-(v as int)) as nat));
        r
    } else {
        dec_chars(v as u128)
    }
}

/// The programme list of one channel and day.
pub open spec fn prevue_url_spec(root: Seq<char>, channel_code: Seq<char>, date_offset: i32, user_id: Seq<char>) -> Seq<char> {
    root + "frame1194/CHANNEL_PLAYER_UTILS/datas/prevue_list.jsp?channelcode="@ + query_encode(
        encode_utf8(channel_code),
    ) + "&framecode=frame1194&versiondir=CHANNEL_PLAYER_UTILS&dateindex="@ + int_dec(
        date_offset as int,
    ) + "&stbtype=sdr&recommpara="@ + query_encode(
        encode_utf8("userId="@ + user_id + "&channelId=1&num=6"@),
    ) + "&ajax=1"@
}

pub fn build_prevue_url(root: &str, channel_code: &str, date_offset: i32, user_id: &str) -> (r: String)
    ensures
        r@ == prevue_url_spec(root@, channel_code@, date_offset, user_id@),
{
    let mut out = chars_of(root);
    extend_chars(
        &mut out,
        lit("frame1194/CHANNEL_PLAYER_UTILS/datas/prevue_list.jsp?channelcode=").as_slice(),
    );
    extend_chars(&mut out, encode_query_component(channel_code).as_slice());
    extend_chars(
        &mut out,
        lit("&framecode=frame1194&versiondir=CHANNEL_PLAYER_UTILS&dateindex=").as_slice(),
    );
    extend_chars(&mut out, i32_dec(date_offset).as_slice());
    extend_chars(&mut out, lit("&stbtype=sdr&recommpara=").as_slice());
    let mut para = lit("userId=");
    extend_chars(&mut para, chars_of(user_id).as_slice());
    extend_chars(&mut para, lit("&channelId=1&num=6").as_slice());
    let para_s = string_of(para.as_slice());
    extend_chars(&mut out, encode_query_component(para_s.as_str()).as_slice());
    extend_chars(&mut out, lit("&ajax=1").as_slice());
    string_of(out.as_slice())
}

// ---------------------------------------------------------------------------
// Programme times
// ---------------------------------------------------------------------------

/// How many bytes UTF-8 gives a character.
pub open spec fn utf8_width(c: char) -> int {
    if (c as u32) < 0x80 {
        1
    } else if (c as u32) < 0x800 {
        2
    } else if (c as u32) < 0x10000 {
        3
    } else {
        4
    }
}

/// The length of a string in UTF-8 bytes.
pub open spec fn utf8_len(s: Seq<char>) -> int
    decreases s.len(),
{
    if s.len() == 0 {
        0
    } else {
        utf8_len(s.drop_last()) + utf8_width(s.last())
    }
}

/// The index of the character that starts at byte offset `off`, if a
/// character starts there (the length of `s` for the end).
pub open spec fn byte_index(s: Seq<char>, off: int) -> Option<int>
    decreases s.len(),
{
    if utf8_len(s) == off {
        Some(s.len() as int)
    } else if s.len() == 0 {
        None
    } else {
        byte_index(s.drop_last(), off)
    }
}

/// The character at byte offset `off` is `c`.
pub open spec fn char_at_byte_is(s: Seq<char>, off: int, c: char) -> bool {
    byte_index(s, off) matches Some(k) && k < s.len() && s[k] == c
}

/// `yyyy.mm.dd hh:mm:ss`, nineteen bytes with `.`, `.` and ` ` at byte
/// offsets 4, 7 and 10.
pub open spec fn is_dotted_time(raw: Seq<char>) -> bool {
    &&& utf8_len(raw) == 19
    &&& char_at_byte_is(raw, 4, '.')
    &&& char_at_byte_is(raw, 7, '.')
    &&& char_at_byte_is(raw, 10, ' ')
}

/// A programme time in the ISO 8601 form with the `+08:00` offset:
/// `yyyyMMddHHmmss` is split up, `yyyy.mm.dd hh:mm:ss` has its separators
/// replaced, any other value that has a `T` is taken as it is.
pub open spec fn normalize_time_spec(raw: Seq<char>) -> Option<Seq<char>> {
    if raw.len() == 14 && (forall|i: int| 0 <= i < raw.len() ==> is_digit(#[trigger] raw[i])) {
        Some(raw.subrange(0, 4) + seq!['-'] + raw.subrange(4, 6) + seq!['-'] + raw.subrange(6, 8)
            + seq!['T'] + raw.subrange(8, 10) + seq![':'] + raw.subrange(10, 12) + seq![':']
            + raw.subrange(12, 14) + "+08:00"@)
    } else if is_dotted_time(raw) {
        let a = byte_index(raw, 4)->Some_0;
        let b = byte_index(raw, 7)->Some_0;
        let c = byte_index(raw, 10)->Some_0;
        Some(raw.subrange(0, a) + seq!['-'] + raw.subrange(a + 1, b) + seq!['-'] + raw.subrange(
            b + 1,
            c,
        ) + seq!['T'] + raw.subrange(c + 1, raw.len() as int) + "+08:00"@)
    } else if find(raw, seq!['T']) is Some {
        Some(raw)
    } else {
        None
    }
}

proof fn lemma_utf8_len_step(s: Seq<char>, k: int)
    requires
        0 < k <= s.len(),
    ensures
        utf8_len(s.take(k)) == utf8_len(s.take(k - 1)) + utf8_width(s[k - 1]),
{
    assert(s.take(k).drop_last() =~= s.take(k - 1));
}

proof fn lemma_utf8_len_mono(s: Seq<char>, a: int, b: int)
    requires
        0 <= a < b <= s.len(),
    ensures
        utf8_len(s.take(a)) < utf8_len(s.take(b)),
    decreases b - a,
{
    lemma_utf8_len_step(s, b);
    if a < b - 1 {
        lemma_utf8_len_mono(s, a, b - 1);
    }
}

proof fn lemma_utf8_len_nonneg(s: Seq<char>)
    ensures
        utf8_len(s) >= 0,
    decreases s.len(),
{
    if s.len() > 0 {
        lemma_utf8_len_nonneg(s.drop_last());
    }
}

proof fn lemma_byte_index(s: Seq<char>, off: int)
    ensures
        byte_index(s, off) matches Some(k) ==> 0 <= k <= s.len() && utf8_len(s.take(k)) == off,
    decreases s.len(),
{
    assert(s.take(s.len() as int) =~= s);
    if utf8_len(s) != off && s.len() > 0 {
        lemma_byte_index(s.drop_last(), off);
        if let Some(k) = byte_index(s.drop_last(), off) {
            assert(s.drop_last().take(k) =~= s.take(k));
        }
    }
}

proof fn lemma_byte_index_order(s: Seq<char>, o1: int, o2: int)
    requires
        o1 < o2,
        byte_index(s, o1) is Some,
        byte_index(s, o2) is Some,
    ensures
        byte_index(s, o1)->Some_0 < byte_index(s, o2)->Some_0,
{
    lemma_byte_index(s, o1);
    lemma_byte_index(s, o2);
    let a = byte_index(s, o1)->Some_0;
    let b = byte_index(s, o2)->Some_0;
    if b < a {
        lemma_utf8_len_mono(s, b, a);
    }
}

fn utf8_width_of(c: char) -> (w: u128)
    ensures
        w == utf8_width(c),
{
    let v: u32 = c as u32;
    if v < 0x80 {
        1
    } else if v < 0x800 {
        2
    } else if v < 0x10000 {
        3
    } else {
        4
    }
}

pub fn utf8_length(s: &[char]) -> (n: u128)
    ensures
        n == utf8_len(s@),
{
    let mut n: u128 = 0;
    let mut i: usize = 0;
    while i < s.len()
        invariant
            i <= s@.len(),
            n == utf8_len(s@.take(i as int)),
            n <= 4 * i,
        decreases s@.len() - i,
    {
        assert(s@.take(i as int + 1).drop_last() =~= s@.take(i as int));
        n = n + utf8_width_of(s[i]);
        i = i + 1;
    }
    assert(s@.take(s@.len() as int) =~= s@);
    n
}

fn byte_index_of(s: &[char], off: u128) -> (r: Option<usize>)
    ensures
        r matches Some(k) ==> byte_index(s@, off as int) == Some(k as int),
        r is None ==> byte_index(s@, off as int) is None,
{
    let mut cur = utf8_length(s);
    let mut k: usize = s.len();
    assert(s@.take(s@.len() as int) =~= s@);
    loop
        invariant
            k <= s@.len(),
            cur == utf8_len(s@.take(k as int)),
            byte_index(s@, off as int) == byte_index(s@.take(k as int), off as int),
        decreases k,
    {
        if cur == off {
            return Some(k);
        }
        if k == 0 {
            return None;
        }
        proof {
            lemma_utf8_len_step(s@, k as int);
            lemma_utf8_len_nonneg(s@.take(k - 1));
            assert(s@.take(k as int).drop_last() =~= s@.take(k - 1));
        }
        cur = cur - utf8_width_of(s[k - 1]);
        k = k - 1;
    }
}

fn all_digits(s: &[char]) -> (r: bool)
    ensures
        r == forall|i: int| 0 <= i < s@.len() ==> is_digit(#[trigger] s@[i]),
{
    let mut i: usize = 0;
    while i < s.len()
        invariant
            i <= s@.len(),
            forall|j: int| 0 <= j < i ==> is_digit(#[trigger] s@[j]),
        decreases s@.len() - i,
    {
        if !char_is_digit(s[i]) {
            return false;
        }
        i = i + 1;
    }
    true
}

fn push_slice(out: &mut Vec<char>, s: &[char], a: usize, b: usize)
    requires
        a <= b <= s@.len(),
    ensures
        final(out)@ == old(out)@ + s@.subrange(a as int, b as int),
{
    let piece = slice_vec(s, a, b);
    extend_chars(out, piece.as_slice());
}

pub fn normalize_ctc_time(raw: &str) -> (r: Option<String>)
    ensures
        match normalize_time_spec(raw@) {
            Some(v) => r matches Some(x) && x@ == v,
            None => r is None,
        },
{
    let s = chars_of(raw);
    let n = s.len();
    if n == 14 && all_digits(s.as_slice()) {
        let mut out: Vec<char> = Vec::new();
        push_slice(&mut out, s.as_slice(), 0, 4);
        out.push('-');
        push_slice(&mut out, s.as_slice(), 4, 6);
        out.push('-');
        push_slice(&mut out, s.as_slice(), 6, 8);
        out.push('T');
        push_slice(&mut out, s.as_slice(), 8, 10);
        out.push(':');
        push_slice(&mut out, s.as_slice(), 10, 12);
        out.push(':');
        push_slice(&mut out, s.as_slice(), 12, 14);
        extend_chars(&mut out, lit("+08:00").as_slice());
        return Some(string_of(out.as_slice()));
    }
    if utf8_length(s.as_slice()) == 19 {
        let a = byte_index_of(s.as_slice(), 4);
        let b = byte_index_of(s.as_slice(), 7);
        let c = byte_index_of(s.as_slice(), 10);
        if let (Some(a), Some(b), Some(c)) = (a, b, c) {
            proof {
                lemma_byte_index_order(s@, 4, 7);
                lemma_byte_index_order(s@, 7, 10);
                lemma_byte_index(s@, 10);
            }
            if a < n && b < n && c < n && s[a] == '.' && s[b] == '.' && s[c] == ' ' {
                let mut out: Vec<char> = Vec::new();
                push_slice(&mut out, s.as_slice(), 0, a);
                out.push('-');
                push_slice(&mut out, s.as_slice(), a + 1, b);
                out.push('-');
                push_slice(&mut out, s.as_slice(), b + 1, c);
                out.push('T');
                push_slice(&mut out, s.as_slice(), c + 1, n);
                extend_chars(&mut out, lit("+08:00").as_slice());
                return Some(string_of(out.as_slice()));
            }
        }
    }
    let t = find_char_in(s.as_slice(), 'T', 0);
    assert(s@.skip(0) =~= s@);
    if t.is_some() {
        return Some(string_of(s.as_slice()));
    }
    None
}

// ---------------------------------------------------------------------------
// Markup attributes and hidden form fields
// ---------------------------------------------------------------------------

/// Where an unquoted attribute value ends: at whitespace, `>` or `/`.
pub open spec fn attr_end(s: Seq<char>, from: int) -> int
    decreases s.len() - from,
{
    if from < 0 || from >= s.len() {
        s.len() as int
    } else if is_space(s[from]) || s[from] == '>' || s[from] == '/' {
        from
    } else {
        attr_end(s, from + 1)
    }
}

/// The value of attribute `name` in a tag, the name matched without regard
/// to ASCII case; a quoted value runs to the matching quote.
pub open spec fn attr_spec(input: Seq<char>, name: Seq<char>) -> Option<Seq<char>> {
    let key = lower(name).push('=');
    match find(lower(input), key) {
        None => None,
        Some(pos) => {
            let after = input.skip(pos + key.len());
            if after.len() == 0 {
                None
            } else if is_quote(after[0]) {
                Some(before_char(after.skip(1), after[0]))
            } else {
                Some(after.take(attr_end(after, 0)))
            }
        },
    }
}

proof fn lemma_attr_end(s: Seq<char>, from: int)
    requires
        0 <= from <= s.len(),
    ensures
        from <= attr_end(s, from) <= s.len(),
    decreases s.len() - from,
{
    if from < s.len() && !(is_space(s[from]) || s[from] == '>' || s[from] == '/') {
        lemma_attr_end(s, from + 1);
    }
}

fn attr_end_of(s: &[char]) -> (r: usize)
    ensures
        r == attr_end(s@, 0),
        r <= s@.len(),
{
    let mut i: usize = 0;
    while i < s.len()
        invariant
            i <= s@.len(),
            attr_end(s@, 0) == attr_end(s@, i as int),
        decreases s@.len() - i,
    {
        if char_is_space(s[i]) || s[i] == '>' || s[i] == '/' {
            return i;
        }
        i = i + 1;
    }
    i
}

pub fn attr(input: &[char], name: &str) -> (r: Option<Vec<char>>)
    ensures
        match attr_spec(input@, name@) {
            Some(v) => r matches Some(x) && x@ == v,
            None => r is None,
        },
{
    let lower_input = to_lower(input);
    let mut key = to_lower(chars_of(name).as_slice());
    key.push('=');
    proof {
        lemma_find_bounds(lower(input@), key@);
    }
    let n = input.len();
    let pos = match find_seq(lower_input.as_slice(), key.as_slice()) {
        Some(pos) => pos,
        None => return None,
    };
    let after = slice_vec(input, pos + key.len(), n);
    assert(after@ =~= input@.skip(pos + key@.len()));
    if after.len() == 0 {
        return None;
    }
    let first = after[0];
    if first == '\'' || first == '"' {
        let value = slice_vec(after.as_slice(), 1, after.len());
        assert(value@ =~= after@.skip(1));
        return Some(before_char_vec(value.as_slice(), first));
    }
    let end = attr_end_of(after.as_slice());
    Some(slice_vec(after.as_slice(), 0, end))
}

/// Whether an `<input ...>` tag is a hidden field: by its `type` attribute,
/// or, when that cannot be read, by a `type=hidden` written in the tag.
pub open spec fn is_hidden_input(input: Seq<char>) -> bool {
    match attr_spec(input, "type"@) {
        Some(v) => lower(v) == "hidden"@,
        None => {
            let il = lower(input);
            contains(il, "type=hidden"@) || contains(il, "type=\"hidden\""@) || contains(
                il,
                "type='hidden'"@,
            )
        },
    }
}

/// The (name, value) pairs of the hidden `<input>` tags of `html` from
/// index `idx` on, in order; a tag runs to the next `>` or to the end.
pub open spec fn hidden_entries(html: Seq<char>, idx: int) -> Seq<(Seq<char>, Seq<char>)>
    decreases html.len() - idx,
{
    if idx < 0 || idx > html.len() {
        seq![]
    } else {
        match find_from(lower(html), "<input"@, idx) {
            None => seq![],
            Some(start) => {
                let end = match find_from(html, seq!['>'], start) {
                    Some(o) => o + 1,
                    None => html.len() as int,
                };
                if idx < end <= html.len() && idx <= start <= end {
                    let input = html.subrange(start, end);
                    let rest = hidden_entries(html, end);
                    if is_hidden_input(input) && attr_spec(input, "name"@) is Some && attr_spec(
                        input,
                        "value"@,
                    ) is Some {
                        seq![
                            (attr_spec(input, "name"@)->Some_0, attr_spec(input, "value"@)->Some_0),
                        ] + rest
                    } else {
                        rest
                    }
                } else {
                    seq![]
                }
            },
        }
    }
}

fn contains_seq(s: &[char], p: &str) -> (r: bool)
    ensures
        r == contains(s@, p@),
{
    find_seq(s, lit(p).as_slice()).is_some()
}

fn is_hidden(input: &[char]) -> (r: bool)
    ensures
        r == is_hidden_input(input@),
{
    match attr(input, "type") {
        Some(v) => {
            let lv = to_lower(v.as_slice());
            seq_equal(lv.as_slice(), lit("hidden").as_slice())
        },
        None => {
            let il = to_lower(input);
            contains_seq(il.as_slice(), "type=hidden") || contains_seq(
                il.as_slice(),
                "type=\"hidden\"",
            ) || contains_seq(il.as_slice(), "type='hidden'")
        },
    }
}

/// The hidden form fields of a page; a name given twice keeps its last value.
pub fn parse_hidden_inputs(html: &str) -> (r: Vec<(String, String)>)
    ensures
        pairs_view(r@) == assoc_from(hidden_entries(html@, 0)),
{
    let h = chars_of(html);
    let lower_h = to_lower(h.as_slice());
    let marker = lit("<input");
    let close = lit(">");
    proof {
        reveal_strlit(">");
        reveal_strlit("<input");
    }
    assert(lower(html@).len() == html@.len());
    let n = h.len();
    let mut out: Vec<(String, String)> = Vec::new();
    let mut idx: usize = 0;
    let ghost mut seen: Seq<(Seq<char>, Seq<char>)> = seq![];
    loop
        invariant
            h@ == html@,
            lower_h@ == lower(html@),
            lower(html@).len() == html@.len(),
            marker@ == "<input"@,
            marker@.len() == 6,
            close@ == seq!['>'],
            n == h@.len(),
            idx <= n,
            seen + hidden_entries(html@, idx as int) == hidden_entries(html@, 0),
            pairs_view(out@) == assoc_from(seen),
        decreases n - idx,
    {
        proof {
            lemma_find_from_facts(lower(html@), marker@, idx as int);
        }
        let start = match find_seq_from(lower_h.as_slice(), marker.as_slice(), idx) {
            Some(st) => st,
            None => {
                assert(seen + seq![] =~= seen);
                return out;
            },
        };
        proof {
            lemma_find_from_facts(html@, close@, start as int);
        }
        let end = match find_seq_from(h.as_slice(), close.as_slice(), start) {
            Some(o) => o + 1,
            None => n,
        };
        assert(idx < end);
        let input = slice_vec(h.as_slice(), start, end);
        let rest_entries = Ghost(hidden_entries(html@, end as int));
        if is_hidden(input.as_slice()) {
            let name = attr(input.as_slice(), "name");
            let value = attr(input.as_slice(), "value");
            match (name, value) {
                (Some(nm), Some(v)) => {
                    let ghost entry = (nm@, v@);
                    proof {
                        assert(seen.push(entry) + rest_entries@ =~= seen + (seq![entry]
                            + rest_entries@));
                        lemma_assoc_from_push(seen, entry);
                        seen = seen.push(entry);
                    }
                    upsert(&mut out, string_of(nm.as_slice()), string_of(v.as_slice()));
                },
                _ => {},
            }
        }
        idx = end;
    }
}

// ---------------------------------------------------------------------------
// Channel blocks
// ---------------------------------------------------------------------------

/// A channel as the portal's frameset declares it.
#[derive(Debug, PartialEq, Eq)]
pub struct RawChannel {
    pub channel_id: String,
    pub channel_name: String,
    pub user_channel_id: String,
    pub channel_url: String,
}

impl RawChannel {
    pub open spec fn view_tuple(&self) -> (Seq<char>, Seq<char>, Seq<char>, Seq<char>) {
        (self.channel_id@, self.channel_name@, self.user_channel_id@, self.channel_url@)
    }
}

impl Clone for RawChannel {
    fn clone(&self) -> (r: Self)
        ensures
            r.view_tuple() == self.view_tuple(),
    {
        RawChannel {
            channel_id: self.channel_id.clone(),
            channel_name: self.channel_name.clone(),
            user_channel_id: self.user_channel_id.clone(),
            channel_url: self.channel_url.clone(),
        }
    }
}

/// The `key=value` pieces of a channel body, keys and values trimmed and
/// values unquoted.
pub open spec fn field_pairs(pieces: Seq<Seq<char>>) -> Seq<(Seq<char>, Seq<char>)>
    decreases pieces.len(),
{
    if pieces.len() == 0 {
        seq![]
    } else {
        let prev = field_pairs(pieces.drop_last());
        match split_once_char(pieces.last(), '=') {
            Some((k, v)) => prev.push((trim(k), trim_matches(trim(v), '"'))),
            None => prev,
        }
    }
}

/// The fields of a channel body `k=v,k=v,...`.
pub open spec fn channel_fields(body: Seq<char>) -> Seq<(Seq<char>, Seq<char>)> {
    assoc_from(field_pairs(split_on(body, ',')))
}

pub open spec fn field_or_empty(kv: Seq<(Seq<char>, Seq<char>)>, key: Seq<char>) -> Seq<char> {
    match assoc_get(kv, key) {
        Some(v) => v,
        None => seq![],
    }
}

pub open spec fn raw_channel_of(kv: Seq<(Seq<char>, Seq<char>)>) -> (Seq<char>, Seq<char>, Seq<char>, Seq<char>) {
    (
        field_or_empty(kv, "ChannelID"@),
        field_or_empty(kv, "ChannelName"@),
        field_or_empty(kv, "UserChannelID"@),
        field_or_empty(kv, "ChannelURL"@),
    )
}

/// The channels declared by the `jsSetConfig('Channel', '...')` calls in
/// `rest`, in order; a call whose body has no field declares none.
pub open spec fn channel_entries(rest: Seq<char>) -> Seq<(Seq<char>, Seq<char>, Seq<char>, Seq<char>)>
    decreases rest.len(),
{
    match find(rest, "jsSetConfig"@) {
        None => seq![],
        Some(i) => {
            let after = rest.skip(i + "jsSetConfig"@.len());
            if 0 <= i && after.len() < rest.len() {
                match next_quoted_spec(after) {
                    None => channel_entries(after),
                    Some((kind, ak)) => if ak.len() >= rest.len() {
                        seq![]
                    } else if kind != "Channel"@ {
                        channel_entries(ak)
                    } else {
                        match next_quoted_spec(ak) {
                            None => channel_entries(ak),
                            Some((body, ab)) => if ab.len() >= rest.len() {
                                seq![]
                            } else {
                                let kv = channel_fields(body);
                                if kv.len() == 0 {
                                    channel_entries(ab)
                                } else {
                                    seq![raw_channel_of(kv)] + channel_entries(ab)
                                }
                            },
                        }
                    },
                }
            } else {
                seq![]
            }
        },
    }
}

pub open spec fn raw_views(v: Seq<RawChannel>) -> Seq<(Seq<char>, Seq<char>, Seq<char>, Seq<char>)> {
    v.map_values(|c: RawChannel| c.view_tuple())
}

fn channel_field_map(body: &[char]) -> (r: Vec<(String, String)>)
    ensures
        pairs_view(r@) == channel_fields(body@),
{
    let pieces = split_vec(body, ',');
    let ghost pv = pieces@.map_values(|v: Vec<char>| v@);
    let mut out: Vec<(String, String)> = Vec::new();
    let mut i: usize = 0;
    while i < pieces.len()
        invariant
            pv == pieces@.map_values(|v: Vec<char>| v@),
            pv == split_on(body@, ','),
            i <= pieces@.len(),
            pairs_view(out@) == assoc_from(field_pairs(pv.take(i as int))),
        decreases pieces@.len() - i,
    {
        assert(pv.take(i as int + 1).drop_last() =~= pv.take(i as int));
        assert(pv.take(i as int + 1).last() == pieces@[i as int]@);
        match split_once_vec(pieces[i].as_slice(), '=') {
            Some((k, v)) => {
                let key = trim_chars(k.as_slice());
                let tv = trim_chars(v.as_slice());
                let val = trim_matches_chars(tv.as_slice(), '"');
                proof {
                    lemma_assoc_from_push(field_pairs(pv.take(i as int)), (key@, val@));
                }
                upsert(&mut out, string_of(key.as_slice()), string_of(val.as_slice()));
            },
            None => {},
        }
        i = i + 1;
    }
    assert(pv.take(pieces@.len() as int) =~= pv);
    out
}

fn field_string(kv: &Vec<(String, String)>, key: &str) -> (r: String)
    ensures
        r@ == field_or_empty(pairs_view(kv@), key@),
{
    match lookup(kv, key) {
        Some(v) => v,
        None => String::new(),
    }
}

/// The channels that a frameset page declares.
pub fn parse_channels(html: &str) -> (r: Vec<RawChannel>)
    ensures
        raw_views(r@) == channel_entries(html@),
{
    let marker = lit("jsSetConfig");
    let channel = lit("Channel");
    proof {
        reveal_strlit("jsSetConfig");
    }
    let mut out: Vec<RawChannel> = Vec::new();
    let mut rest = chars_of(html);
    loop
        invariant
            marker@ == "jsSetConfig"@,
            marker@.len() == 11,
            channel@ == "Channel"@,
            raw_views(out@) + channel_entries(rest@) == channel_entries(html@),
        decreases rest@.len(),
    {
        proof {
            lemma_find_bounds(rest@, marker@);
        }
        let n = rest.len();
        let i = match find_seq(rest.as_slice(), marker.as_slice()) {
            Some(i) => i,
            None => {
                assert(raw_views(out@) + seq![] =~= raw_views(out@));
                return out;
            },
        };
        let after = slice_vec(rest.as_slice(), i + 11, n);
        assert(after@ =~= rest@.skip(i + 11));
        proof {
            lemma_next_quoted_shorter(after@);
        }
        let (kind, ak) = match next_quoted(after.as_slice()) {
            Some(x) => x,
            None => {
                rest = after;
                continue;
            },
        };
        proof {
            lemma_next_quoted_shorter(ak@);
        }
        if !seq_equal(kind.as_slice(), channel.as_slice()) {
            rest = ak;
            continue;
        }
        let (body, ab) = match next_quoted(ak.as_slice()) {
            Some(x) => x,
            None => {
                rest = ak;
                continue;
            },
        };
        let kv = channel_field_map(body.as_slice());
        if kv.len() > 0 {
            let ch = RawChannel {
                channel_id: field_string(&kv, "ChannelID"),
                channel_name: field_string(&kv, "ChannelName"),
                user_channel_id: field_string(&kv, "UserChannelID"),
                channel_url: field_string(&kv, "ChannelURL"),
            };
            let ghost before = raw_views(out@);
            out.push(ch);
            proof {
                assert(raw_views(out@) =~= before.push(ch.view_tuple()));
                assert(before.push(ch.view_tuple()) + channel_entries(ab@) =~= before + (seq![
                    ch.view_tuple(),
                ] + channel_entries(ab@)));
            }
        }
        rest = ab;
    }
}

// ---------------------------------------------------------------------------
// JSON answers
// ---------------------------------------------------------------------------

/// What a text parses to as JSON.
#[derive(Debug, Clone, Copy, PartialEq, Eq)]
pub enum JsonShape {
    /// Not a JSON document.
    Invalid,
    /// A JSON object.
    Object,
    /// A JSON document that is not an object.
    Other,
}

/// The shape that `serde_json` gives a text.
pub uninterp spec fn json_shape(text: Seq<char>) -> JsonShape;

/// `serde_json::from_str::<serde_json::Value>`: whether the text is JSON,
/// and if so whether it is an object. The result depends on the text alone.
#[verifier::external_body]
fn json_shape_of(text: &str) -> (r: JsonShape)
    ensures
        r == json_shape(text@),
{
    match serde_json::from_str::<serde_json::Value>(text) {
        Ok(serde_json::Value::Object(_)) => JsonShape::Object,
        Ok(_) => JsonShape::Other,
        Err(_) => JsonShape::Invalid,
    }
}

/// The string members of one entry of a programme list; a member that is
/// missing or not a JSON string is `None`.
#[derive(Debug, PartialEq, Eq)]
pub struct PrevueFields {
    pub prevuecode: Option<String>,
    pub prevuename: Option<String>,
    pub begintime: Option<String>,
    pub endtime: Option<String>,
    pub is_live: Option<String>,
    pub is_back: Option<String>,
    pub is_record: Option<String>,
}

/// The entries of the `channelPrevue` array of a JSON text, or `None` when
/// the text has no such array.
pub uninterp spec fn json_prevue(text: Seq<char>) -> Option<Seq<PrevueFields>>;

/// `serde_json::from_str::<serde_json::Value>`, then `get("channelPrevue")`,
/// `as_array` and, for each entry, `get(..)` and `as_str` of the members
/// that a programme is read from. The result depends on the text alone.
#[verifier::external_body]
fn json_prevue_of(text: &str) -> (r: Option<Vec<PrevueFields>>)
    ensures
        match json_prevue(text@) {
            Some(s) => r matches Some(v) && v@ == s,
            None => r is None,
        },
{
    let value = serde_json::from_str::<serde_json::Value>(text).ok()?;
    let items = value.get("channelPrevue")?.as_array()?;
    let s = |e: &serde_json::Value, k: &str| e.get(k).and_then(|v| v.as_str()).map(String::from);
    Some(items.iter().map(|e| PrevueFields {
        prevuecode: s(e, "prevuecode"),
        prevuename: s(e, "prevuename"),
        begintime: s(e, "begintime"),
        endtime: s(e, "endtime"),
        is_live: s(e, "isLive"),
        is_back: s(e, "isBack"),
        is_record: s(e, "isRecord"),
    }).collect())
}

/// The string member `key` of a JSON object text, or `None` when the text
/// is not a JSON object or has no such string member.
pub uninterp spec fn json_string_member(text: Seq<char>, key: Seq<char>) -> Option<Seq<char>>;

/// `serde_json::from_str::<serde_json::Value>`, `get(key)` and `as_str`.
/// The result depends on the text and the key alone.
#[verifier::external_body]
fn json_string_member_of(text: &str, key: &str) -> (r: Option<String>)
    ensures
        match json_string_member(text@, key@) {
            Some(s) => r matches Some(v) && v@ == s,
            None => r is None,
        },
{
    let value = serde_json::from_str::<serde_json::Value>(text).ok()?;
    value.get(key).and_then(|v| v.as_str()).map(String::from)
}

/// Scanning from index `i` with the given brace depth and string state:
/// the index of the `}` that brings the depth back to zero. Braces inside
/// JSON strings do not count.
pub open spec fn object_end(t: Seq<char>, i: int, depth: nat, in_str: bool, esc: bool) -> Option<int>
    decreases t.len() - i,
{
    if i < 0 || i >= t.len() {
        None
    } else if in_str {
        if esc {
            object_end(t, i + 1, depth, true, false)
        } else if t[i] == '\\' {
            object_end(t, i + 1, depth, true, true)
        } else if t[i] == '"' {
            object_end(t, i + 1, depth, false, false)
        } else {
            object_end(t, i + 1, depth, true, false)
        }
    } else if t[i] == '"' {
        object_end(t, i + 1, depth, true, esc)
    } else if t[i] == '{' {
        object_end(t, i + 1, depth + 1, false, esc)
    } else if t[i] == '}' {
        let d: nat = if depth > 0 {
            (depth - 1) as nat
        } else {
            0
        };
        if d == 0 {
            Some(i)
        } else {
            object_end(t, i + 1, d, false, esc)
        }
    } else {
        object_end(t, i + 1, depth, false, esc)
    }
}

/// The JSON object in a text: the text itself when it is a JSON object;
/// when it is no JSON at all, the first balanced `{...}` in it, if that is
/// a JSON object.
pub open spec fn lenient_object_spec(text: Seq<char>) -> Option<Seq<char>> {
    match json_shape(text) {
        JsonShape::Object => Some(text),
        JsonShape::Other => None,
        JsonShape::Invalid => match find(text, seq!['{']) {
            None => None,
            Some(st) => match object_end(text, st, 0, false, false) {
                None => None,
                Some(e) => {
                    let candidate = text.subrange(st, e + 1);
                    if json_shape(candidate) == JsonShape::Object {
                        Some(candidate)
                    } else {
                        None
                    }
                },
            },
        },
    }
}

proof fn lemma_object_end(t: Seq<char>, i: int, depth: nat, in_str: bool, esc: bool)
    requires
        0 <= i,
    ensures
        object_end(t, i, depth, in_str, esc) matches Some(e) ==> i <= e < t.len(),
    decreases t.len() - i,
{
    if i < t.len() {
        lemma_object_end(t, i + 1, depth, true, false);
        lemma_object_end(t, i + 1, depth, true, true);
        lemma_object_end(t, i + 1, depth, false, false);
        lemma_object_end(t, i + 1, depth, true, esc);
        lemma_object_end(t, i + 1, depth + 1, false, esc);
        lemma_object_end(t, i + 1, depth, false, esc);
        if depth > 0 {
            lemma_object_end(t, i + 1, (depth - 1) as nat, false, esc);
        }
    }
}

fn find_object_end(t: &[char], start: usize) -> (r: Option<usize>)
    ensures
        r matches Some(e) ==> object_end(t@, start as int, 0, false, false) == Some(e as int),
        r is None ==> object_end(t@, start as int, 0, false, false) is None,
{
    let mut i: usize = start;
    let mut depth: usize = 0;
    let mut in_str = false;
    let mut esc = false;
    while i < t.len()
        invariant
            depth <= i,
            object_end(t@, start as int, 0, false, false) == object_end(
                t@,
                i as int,
                depth as nat,
                in_str,
                esc,
            ),
        decreases t@.len() - i,
    {
        let ch = t[i];
        if in_str {
            if esc {
                esc = false;
            } else if ch == '\\' {
                esc = true;
            } else if ch == '"' {
                in_str = false;
            }
        } else if ch == '"' {
            in_str = true;
        } else if ch == '{' {
            depth = depth + 1;
        } else if ch == '}' {
            if depth > 0 {
                depth = depth - 1;
            }
            if depth == 0 {
                return Some(i);
            }
        }
        i = i + 1;
    }
    None
}

/// The JSON object in a possibly wrapped answer.
pub fn lenient_object_text(text: &str) -> (r: Option<String>)
    ensures
        match lenient_object_spec(text@) {
            Some(v) => r matches Some(x) && x@ == v,
            None => r is None,
        },
{
    match json_shape_of(text) {
        JsonShape::Object => return Some(String::from_str(text)),
        JsonShape::Other => return None,
        JsonShape::Invalid => {},
    }
    let t = chars_of(text);
    let tn = t.len();
    assert(t@.skip(0) =~= t@);
    let st = match find_char_in(t.as_slice(), '{', 0) {
        Some(st) => st,
        None => return None,
    };
    proof {
        lemma_object_end(t@, st as int, 0, false, false);
    }
    let e = match find_object_end(t.as_slice(), st) {
        Some(e) => e,
        None => return None,
    };
    let candidate = string_of(slice_vec(t.as_slice(), st, e + 1).as_slice());
    match json_shape_of(candidate.as_str()) {
        JsonShape::Object => Some(candidate),
        _ => None,
    }
}

pub open spec fn program_view(p: Program) -> (Seq<char>, Seq<char>, Seq<char>, Seq<char>, bool, bool) {
    (p.code@, p.name@, p.start@, p.end@, p.is_live, p.is_replayable)
}

pub open spec fn opt_or_empty(o: Option<String>) -> Seq<char> {
    match o {
        Some(s) => s@,
        None => seq![],
    }
}

pub open spec fn is_one(o: Option<String>) -> bool {
    o matches Some(s) && s@ == "1"@
}

/// The programme an entry describes: it needs a begin and an end time that
/// normalise; code and name default to empty; live when `isLive` is `"1"`,
/// replayable when `isBack` or `isRecord` is `"1"`.
pub open spec fn program_of(e: PrevueFields) -> Option<(Seq<char>, Seq<char>, Seq<char>, Seq<char>, bool, bool)> {
    match e.begintime {
        None => None,
        Some(b) => match normalize_time_spec(b@) {
            None => None,
            Some(start) => match e.endtime {
                None => None,
                Some(x) => match normalize_time_spec(x@) {
                    None => None,
                    Some(end) => Some(
                        (
                            opt_or_empty(e.prevuecode),
                            opt_or_empty(e.prevuename),
                            start,
                            end,
                            is_one(e.is_live),
                            is_one(e.is_back) || is_one(e.is_record),
                        ),
                    ),
                },
            },
        },
    }
}

/// The programmes of the entries that describe one, in order.
pub open spec fn programs_of(es: Seq<PrevueFields>) -> Seq<(Seq<char>, Seq<char>, Seq<char>, Seq<char>, bool, bool)>
    decreases es.len(),
{
    if es.len() == 0 {
        seq![]
    } else {
        match program_of(es.last()) {
            Some(p) => programs_of(es.drop_last()).push(p),
            None => programs_of(es.drop_last()),
        }
    }
}

/// The programme list of an EPG answer.
pub open spec fn parse_programs_spec(text: Seq<char>) -> Result<Seq<(Seq<char>, Seq<char>, Seq<char>, Seq<char>, bool, bool)>, Seq<char>> {
    match lenient_object_spec(text) {
        None => Err("EPG response is not JSON"@),
        Some(obj) => match json_prevue(obj) {
            None => Err("EPG channelPrevue missing"@),
            Some(es) => Ok(programs_of(es)),
        },
    }
}

fn opt_string_or_empty(o: &Option<String>) -> (r: String)
    ensures
        r@ == opt_or_empty(*o),
{
    match o {
        Some(s) => s.clone(),
        None => String::new(),
    }
}

fn is_one_of(o: &Option<String>) -> (r: bool)
    ensures
        r == is_one(*o),
{
    match o {
        Some(s) => {
            let c = chars_of(s.as_str());
            seq_equal(c.as_slice(), lit("1").as_slice())
        },
        None => false,
    }
}

fn program_from_fields(e: &PrevueFields) -> (r: Option<Program>)
    ensures
        match program_of(*e) {
            Some(p) => r matches Some(x) && program_view(x) == p,
            None => r is None,
        },
{
    let start = match &e.begintime {
        Some(b) => match normalize_ctc_time(b.as_str()) {
            Some(s) => s,
            None => return None,
        },
        None => return None,
    };
    let end = match &e.endtime {
        Some(x) => match normalize_ctc_time(x.as_str()) {
            Some(s) => s,
            None => return None,
        },
        None => return None,
    };
    Some(
        Program {
            code: opt_string_or_empty(&e.prevuecode),
            name: opt_string_or_empty(&e.prevuename),
            start,
            end,
            is_live: is_one_of(&e.is_live),
            is_replayable: is_one_of(&e.is_back) || is_one_of(&e.is_record),
        },
    )
}

/// A programme read from an entry starts at the normalised form of the
/// entry's begin time and ends at the normalised form of its end time; an
/// entry gives no programme exactly when one of the two is missing or does
/// not normalise.
pub proof fn law_program_times(e: PrevueFields)
    ensures
        program_of(e) matches Some(p) ==> {
            &&& e.begintime matches Some(b) && normalize_time_spec(b@) == Some(p.2)
            &&& e.endtime matches Some(x) && normalize_time_spec(x@) == Some(p.3)
        },
        program_of(e) is None <==> !(e.begintime matches Some(b) && normalize_time_spec(b@) is Some)
            || !(e.endtime matches Some(x) && normalize_time_spec(x@) is Some),
{
}

/// A compact time `yyyyMMddHHmmss` becomes `yyyy-MM-ddTHH:mm:ss+08:00`:
/// its digits in order, split by `-`, `T` and `:`, with the `+08:00` offset.
pub proof fn law_compact_time_layout(raw: Seq<char>)
    requires
        raw.len() == 14,
        forall|i: int| 0 <= i < 14 ==> is_digit(#[trigger] raw[i]),
    ensures
        normalize_time_spec(raw) matches Some(t) && {
            &&& t.len() == 25
            &&& t[4] == '-' && t[7] == '-' && t[10] == 'T' && t[13] == ':' && t[16] == ':'
            &&& t.subrange(19, 25) == "+08:00"@
            &&& forall|i: int| 0 <= i < 4 ==> #[trigger] t[i] == raw[i]
            &&& forall|i: int| 4 <= i < 6 ==> #[trigger] t[i + 1] == raw[i]
            &&& forall|i: int| 6 <= i < 8 ==> #[trigger] t[i + 2] == raw[i]
            &&& forall|i: int| 8 <= i < 10 ==> #[trigger] t[i + 3] == raw[i]
            &&& forall|i: int| 10 <= i < 12 ==> #[trigger] t[i + 4] == raw[i]
            &&& forall|i: int| 12 <= i < 14 ==> #[trigger] t[i + 5] == raw[i]
        },
{
    reveal_strlit("+08:00");
    let t = normalize_time_spec(raw)->Some_0;
    assert(t.subrange(19, 25) =~= "+08:00"@);
}

/// The entry's begin and end times normalise to `start` and `end`.
pub open spec fn entry_times_are(e: PrevueFields, start: Seq<char>, end: Seq<char>) -> bool {
    &&& e.begintime matches Some(b) && normalize_time_spec(b@) == Some(start)
    &&& e.endtime matches Some(x) && normalize_time_spec(x@) == Some(end)
}

/// Some entry's begin and end times normalise to `start` and `end`.
pub open spec fn times_of_some_entry(es: Seq<PrevueFields>, start: Seq<char>, end: Seq<char>) -> bool {
    exists|j: int| 0 <= j < es.len() && #[trigger] entry_times_are(es[j], start, end)
}

/// Every programme of a guide answer comes from one of its entries: its
/// start is that entry's normalised begin time and its end that entry's
/// normalised end time.
pub proof fn law_programs_times(es: Seq<PrevueFields>)
    ensures
        programs_of(es).len() <= es.len(),
        forall|k: int|
            0 <= k < programs_of(es).len() ==> #[trigger] times_of_some_entry(
                es,
                programs_of(es)[k].2,
                programs_of(es)[k].3,
            ),
    decreases es.len(),
{
    if es.len() > 0 {
        let init = es.drop_last();
        law_programs_times(init);
        law_program_times(es.last());
        let ps = programs_of(es);
        let qs = programs_of(init);
        assert forall|k: int| 0 <= k < ps.len() implies #[trigger] times_of_some_entry(
            es,
            ps[k].2,
            ps[k].3,
        ) by {
            if k < qs.len() {
                assert(ps[k] == qs[k]);
                assert(times_of_some_entry(init, qs[k].2, qs[k].3));
                let j = choose|j: int|
                    0 <= j < init.len() && #[trigger] entry_times_are(init[j], qs[k].2, qs[k].3);
                assert(es[j] == init[j]);
                assert(entry_times_are(es[j], ps[k].2, ps[k].3));
            } else {
                let j = es.len() - 1;
                assert(es[j] == es.last());
                match program_of(es.last()) {
                    Some(p) => {
                        assert(ps == qs.push(p));
                        assert(ps[k] == p);
                    },
                    None => {
                        assert(ps == qs);
                    },
                }
                assert(entry_times_are(es[j], ps[k].2, ps[k].3));
            }
        }
    }
}

pub open spec fn program_views(v: Seq<Program>) -> Seq<(Seq<char>, Seq<char>, Seq<char>, Seq<char>, bool, bool)> {
    v.map_values(|p: Program| program_view(p))
}

/// The programmes of an EPG answer, which may be wrapped in other text.
pub fn parse_programs(json_text: &str) -> (r: Result<Vec<Program>, String>)
    ensures
        match parse_programs_spec(json_text@) {
            Ok(ps) => r matches Ok(v) && program_views(v@) == ps,
            Err(m) => r matches Err(x) && x@ == m,
        },
{
    let obj = match lenient_object_text(json_text) {
        Some(o) => o,
        None => return Err(String::from_str("EPG response is not JSON")),
    };
    let entries = match json_prevue_of(obj.as_str()) {
        Some(es) => es,
        None => return Err(String::from_str("EPG channelPrevue missing")),
    };
    Ok(programs_from_entries(&entries))
}

/// The programmes read from the entries of a `channelPrevue` list: an entry
/// without a start or an end time that can be read is skipped.
pub fn programs_from_entries(entries: &Vec<PrevueFields>) -> (r: Vec<Program>)
    ensures
        program_views(r@) == programs_of(entries@),
{
    let mut out: Vec<Program> = Vec::new();
    let mut i: usize = 0;
    while i < entries.len()
        invariant
            i <= entries@.len(),
            program_views(out@) == programs_of(entries@.take(i as int)),
        decreases entries@.len() - i,
    {
        assert(entries@.take(i as int + 1).drop_last() =~= entries@.take(i as int));
        match program_from_fields(&entries[i]) {
            Some(p) => {
                let ghost before = program_views(out@);
                out.push(p);
                assert(program_views(out@) =~= before.push(program_view(p)));
            },
            None => {},
        }
        i = i + 1;
    }
    assert(entries@.take(entries@.len() as int) =~= entries@);
    out
}

// ---------------------------------------------------------------------------
// The mixno mapping
// ---------------------------------------------------------------------------

/// The `display:user` pieces of a mapping string, quotes trimmed.
pub open spec fn mapping_pairs(pieces: Seq<Seq<char>>) -> Seq<(Seq<char>, Seq<char>)>
    decreases pieces.len(),
{
    if pieces.len() == 0 {
        seq![]
    } else {
        let prev = mapping_pairs(pieces.drop_last());
        match split_once_char(pieces.last(), ':') {
            Some((d, u)) => prev.push((trim_matches(d, '"'), trim_matches(u, '"'))),
            None => prev,
        }
    }
}

/// Display number to user channel id, from the `channelMixnoMapping`
/// string of the answer (`"001:100,002:200"`); a display number given twice
/// keeps its last user channel.
pub open spec fn mixno_mapping_spec(json_text: Seq<char>) -> Seq<(Seq<char>, Seq<char>)> {
    let raw = match json_string_member(json_text, "channelMixnoMapping"@) {
        Some(r) => r,
        None => seq![],
    };
    assoc_from(mapping_pairs(split_on(raw, ',')))
}

pub fn parse_mixno_mapping(json_text: &str) -> (r: Vec<(String, String)>)
    ensures
        pairs_view(r@) == mixno_mapping_spec(json_text@),
{
    let raw = match json_string_member_of(json_text, "channelMixnoMapping") {
        Some(r) => chars_of(r.as_str()),
        None => Vec::new(),
    };
    let pieces = split_vec(raw.as_slice(), ',');
    let ghost pv = pieces@.map_values(|v: Vec<char>| v@);
    let mut out: Vec<(String, String)> = Vec::new();
    let mut i: usize = 0;
    while i < pieces.len()
        invariant
            pv == pieces@.map_values(|v: Vec<char>| v@),
            pv == split_on(raw@, ','),
            i <= pieces@.len(),
            pairs_view(out@) == assoc_from(mapping_pairs(pv.take(i as int))),
        decreases pieces@.len() - i,
    {
        assert(pv.take(i as int + 1).drop_last() =~= pv.take(i as int));
        assert(pv.take(i as int + 1).last() == pieces@[i as int]@);
        match split_once_vec(pieces[i].as_slice(), ':') {
            Some((d, u)) => {
                let dv = trim_matches_chars(d.as_slice(), '"');
                let uv = trim_matches_chars(u.as_slice(), '"');
                proof {
                    lemma_assoc_from_push(mapping_pairs(pv.take(i as int)), (dv@, uv@));
                }
                upsert(&mut out, string_of(dv.as_slice()), string_of(uv.as_slice()));
            },
            None => {},
        }
        i = i + 1;
    }
    assert(pv.take(pieces@.len() as int) =~= pv);
    out
}

// ---------------------------------------------------------------------------
// Channel numbers
// ---------------------------------------------------------------------------

pub open spec fn numbers_view(v: Seq<(String, u32)>) -> Seq<(Seq<char>, u32)> {
    v.map_values(|p: (String, u32)| (p.0@, p.1))
}

/// The number of the last entry for `key`.
pub open spec fn number_lookup(m: Seq<(Seq<char>, u32)>, key: Seq<char>) -> Option<u32>
    decreases m.len(),
{
    if m.len() == 0 {
        None
    } else if m.last().0 == key {
        Some(m.last().1)
    } else {
        number_lookup(m.drop_last(), key)
    }
}

/// User channel id to display number, from the display-to-user mapping:
/// the entries whose display number parses as a `u32`, in order.
pub open spec fn user_numbers(m: Seq<(Seq<char>, Seq<char>)>) -> Seq<(Seq<char>, u32)>
    decreases m.len(),
{
    if m.len() == 0 {
        seq![]
    } else {
        let prev = user_numbers(m.drop_last());
        match parse_unsigned_spec(m.last().0, 0xffff_ffff) {
            Some(n) => prev.push((m.last().1, n as u32)),
            None => prev,
        }
    }
}

/// The numbers that the mapping gives the channels by their user channel id.
pub fn user_channel_numbers(mapping: &Vec<(String, String)>) -> (r: Vec<(String, u32)>)
    ensures
        numbers_view(r@) == user_numbers(pairs_view(mapping@)),
{
    let ghost m = pairs_view(mapping@);
    let mut out: Vec<(String, u32)> = Vec::new();
    let mut i: usize = 0;
    while i < mapping.len()
        invariant
            m == pairs_view(mapping@),
            i <= mapping@.len(),
            numbers_view(out@) == user_numbers(m.take(i as int)),
        decreases mapping@.len() - i,
    {
        assert(m.take(i as int + 1).drop_last() =~= m.take(i as int));
        let display = chars_of(mapping[i].0.as_str());
        match parse_unsigned(display.as_slice(), 0xffff_ffff) {
            Some(n) => {
                let ghost before = numbers_view(out@);
                out.push((mapping[i].1.clone(), n as u32));
                assert(numbers_view(out@) =~= before.push((mapping@[i as int].1@, n as u32)));
            },
            None => {},
        }
        i = i + 1;
    }
    assert(m.take(mapping@.len() as int) =~= m);
    out
}

fn number_for_user(m: &Vec<(String, u32)>, key: &str) -> (r: Option<u32>)
    ensures
        r == number_lookup(numbers_view(m@), key@),
{
    let k = chars_of(key);
    let mut i: usize = m.len();
    assert(numbers_view(m@).take(m@.len() as int) =~= numbers_view(m@));
    while i > 0
        invariant
            k@ == key@,
            i <= m@.len(),
            number_lookup(numbers_view(m@), key@) == number_lookup(
                numbers_view(m@).take(i as int),
                key@,
            ),
        decreases i,
    {
        let ghost t = numbers_view(m@).take(i as int);
        assert(t.drop_last() =~= numbers_view(m@).take(i - 1));
        assert(t.last() == numbers_view(m@)[i - 1]);
        assert(numbers_view(m@)[i - 1] == (m@[i - 1].0@, m@[i - 1].1));
        assert(number_lookup(t, key@) == if t.last().0 == key@ {
            Some(t.last().1)
        } else {
            number_lookup(t.drop_last(), key@)
        });
        let entry = &m[i - 1];
        let name = chars_of(entry.0.as_str());
        assert(name@ == m@[i - 1].0@);
        if seq_equal(name.as_slice(), k.as_slice()) {
            return Some(entry.1);
        }
        i = i - 1;
    }
    None
}

/// The override number of a channel, by its channel id.
fn override_number(ch: &RawChannel, overrides: &ChannelNumberOverrides) -> (r: Option<u32>)
    ensures
        r == override_lookup(overrides@, ch.channel_id@),
{
    overrides.number_for(ch.channel_id.as_str())
}

/// The override number of each channel.
pub open spec fn override_numbers(
    chs: Seq<RawChannel>,
    overrides: Map<Seq<char>, crate::config::ChannelNumberOverride>,
) -> Seq<Option<u32>> {
    Seq::new(chs.len(), |i: int| override_lookup(overrides, chs[i].channel_id@))
}

/// The mapped number of each channel.
pub open spec fn mapped_numbers(chs: Seq<RawChannel>, by_user: Seq<(Seq<char>, u32)>) -> Seq<Option<u32>> {
    Seq::new(chs.len(), |i: int| number_lookup(by_user, chs[i].user_channel_id@))
}

/// Numbers the channels: overrides first, then the portal's mapping, then
/// the smallest free numbers; no two channels share a number.
pub fn assign_channel_numbers(
    channels: &[RawChannel],
    by_user_channel: &Vec<(String, u32)>,
    overrides: &ChannelNumberOverrides,
) -> (r: Result<Vec<u32>, String>)
    requires
        channels@.len() <= u32::MAX,
    ensures
        r matches Ok(v) && numbers_assigned(
            override_numbers(channels@, overrides@),
            mapped_numbers(channels@, numbers_view(by_user_channel@)),
            v@,
        ) && all_distinct(v@),
{
    let ghost ovs = override_numbers(channels@, overrides@);
    let ghost bks = mapped_numbers(channels@, numbers_view(by_user_channel@));
    let mut ov: Vec<Option<u32>> = Vec::new();
    let mut bk: Vec<Option<u32>> = Vec::new();
    let mut i: usize = 0;
    while i < channels.len()
        invariant
            i <= channels@.len(),
            ov@ == ovs.take(i as int),
            bk@ == bks.take(i as int),
            ovs.len() == channels@.len(),
            bks.len() == channels@.len(),
            ovs == override_numbers(channels@, overrides@),
            bks == mapped_numbers(channels@, numbers_view(by_user_channel@)),
        decreases channels@.len() - i,
    {
        ov.push(override_number(&channels[i], overrides));
        bk.push(number_for_user(by_user_channel, channels[i].user_channel_id.as_str()));
        assert(ov@ =~= ovs.take(i as int + 1));
        assert(bk@ =~= bks.take(i as int + 1));
        i = i + 1;
    }
    assert(ovs.take(channels@.len() as int) =~= ovs);
    assert(bks.take(channels@.len() as int) =~= bks);
    Ok(assign_numbers(&ov, &bk))
}

// ---------------------------------------------------------------------------
// The authenticator
// ---------------------------------------------------------------------------

/// Triple-DES (EDE3) in ECB mode with PKCS#7 padding, as the `des` and `ecb`
/// crates compute it.
pub uninterp spec fn tdes_ede3_ecb_pkcs7(key: Seq<u8>, data: Seq<u8>) -> Seq<u8>;

/// `ecb::Encryptor::<des::TdesEde3>::new(key).encrypt_padded_vec_mut::<Pkcs7>(data)`.
/// The ciphertext depends on the key and the data alone; PKCS#7 always adds
/// padding, so it is one block longer than the whole blocks of the data.
#[verifier::external_body]
fn tdes_encrypt(key: &[u8; 24], data: &[u8]) -> (r: Vec<u8>)
    ensures
        r@ == tdes_ede3_ecb_pkcs7(key@, data@),
        r@.len() == 8 * (data@.len() / 8 + 1),
{
    let cipher = <ecb::Encryptor<des::TdesEde3> as ecb::cipher::KeyInit>::new(&(*key).into());
    ecb::cipher::BlockEncryptMut::encrypt_padded_vec_mut::<ecb::cipher::block_padding::Pkcs7>(
        cipher,
        data,
    )
}

/// The 24-byte key: the first 24 bytes of the password, padded with `'0'`.
pub open spec fn auth_key(password: Seq<u8>) -> Seq<u8> {
    Seq::new(24, |i: int| if i < password.len() { password[i] } else { 48u8 })
}

/// `rand$token$user$stb$ip$mac$$CTC`.
pub open spec fn auth_plaintext(rand: u64, token: Seq<char>, user: Seq<char>, stb: Seq<char>, ip: Seq<char>, mac: Seq<char>) -> Seq<char> {
    dec(rand as nat) + "$"@ + token + "$"@ + user + "$"@ + stb + "$"@ + ip + "$"@ + mac + "$$CTC"@
}

/// The login authenticator: the hex of the Triple-DES encryption of the
/// plaintext under the password key; `rand` must have eight digits.
pub open spec fn authenticator_spec(user_id: Seq<char>, password: Seq<char>, stb_id: Seq<char>, ip: Seq<char>, mac: Seq<char>, encry_token: Seq<char>, rand: u64) -> Result<Seq<char>, Seq<char>> {
    if !(10_000_000 <= rand <= 99_999_999) {
        Err("rand must be 8 digits, got "@ + dec(rand as nat))
    } else {
        Ok(
            hex_of(
                tdes_ede3_ecb_pkcs7(
                    auth_key(encode_utf8(password)),
                    encode_utf8(auth_plaintext(rand, encry_token, user_id, stb_id, ip, mac)),
                ),
            ),
        )
    }
}

pub fn build_authenticator(
    user_id: &str,
    password: &str,
    stb_id: &str,
    ip: &str,
    mac: &str,
    encry_token: &str,
    rand: u64,
) -> (r: Result<String, String>)
    ensures
        match authenticator_spec(user_id@, password@, stb_id@, ip@, mac@, encry_token@, rand) {
            Ok(v) => r matches Ok(x) && x@ == v,
            Err(m) => r matches Err(x) && x@ == m,
        },
        r matches Ok(x) ==> x@.len() > 0 && x@.len() % 16 == 0 && forall|i: int|
            0 <= i < x@.len() ==> ('0' <= #[trigger] x@[i] <= '9') || ('a' <= x@[i] <= 'f'),
{
    if !(10_000_000 <= rand && rand <= 99_999_999) {
        let mut msg = lit("rand must be 8 digits, got ");
        extend_chars(&mut msg, dec_chars(rand as u128).as_slice());
        return Err(string_of(msg.as_slice()));
    }
    let mut plain = dec_chars(rand as u128);
    let dollar = lit("$");
    extend_chars(&mut plain, dollar.as_slice());
    extend_chars(&mut plain, chars_of(encry_token).as_slice());
    extend_chars(&mut plain, dollar.as_slice());
    extend_chars(&mut plain, chars_of(user_id).as_slice());
    extend_chars(&mut plain, dollar.as_slice());
    extend_chars(&mut plain, chars_of(stb_id).as_slice());
    extend_chars(&mut plain, dollar.as_slice());
    extend_chars(&mut plain, chars_of(ip).as_slice());
    extend_chars(&mut plain, dollar.as_slice());
    extend_chars(&mut plain, chars_of(mac).as_slice());
    extend_chars(&mut plain, lit("$$CTC").as_slice());
    let plaintext = string_of(plain.as_slice());
    let pw = password.as_bytes();
    let mut key: [u8; 24] = [48u8; 24];
    let mut i: usize = 0;
    while i < 24 && i < pw.len()
        invariant
            i <= 24,
            i <= pw@.len(),
            forall|j: int| 0 <= j < i ==> key@[j] == pw@[j],
            forall|j: int| i <= j < 24 ==> key@[j] == 48u8,
        decreases 24 - i,
    {
        key[i] = pw[i];
        i = i + 1;
    }
    assert(key@ =~= auth_key(encode_utf8(password@)));
    let data = plaintext.as_str().as_bytes();
    let encrypted = tdes_encrypt(&key, data);
    proof {
        lemma_hex_len(encrypted@);
        lemma_hex_chars(encrypted@);
        let b = encrypted@.len();
        let d = data@.len();
        assert(2 * b > 0 && (2 * b) % 16 == 0) by (nonlinear_arith)
            requires
                b == 8 * (d / 8 + 1),
        ;
    }
    Ok(to_hex(encrypted.as_slice()))
}

/// The `$`-separated fields of a text, in order (one empty field for an
/// empty text).
pub open spec fn dollar_fields(s: Seq<char>) -> Seq<Seq<char>>
    decreases s.len(),
{
    if s.len() == 0 {
        seq![seq![]]
    } else {
        let rest = dollar_fields(s.drop_first());
        if s[0] == '$' {
            seq![seq![]] + rest
        } else {
            rest.update(0, seq![s[0]] + rest[0])
        }
    }
}

/// `s` holds no `$`.
pub open spec fn no_dollar(s: Seq<char>) -> bool {
    forall|i: int| 0 <= i < s.len() ==> s[i] != '$'
}

proof fn lemma_dollar_fields_len(s: Seq<char>)
    ensures
        dollar_fields(s).len() >= 1,
    decreases s.len(),
{
    if s.len() > 0 {
        lemma_dollar_fields_len(s.drop_first());
    }
}

proof fn lemma_dollar_fields_prefix(a: Seq<char>, t: Seq<char>)
    requires
        no_dollar(a),
    ensures
        dollar_fields(a + t) == dollar_fields(t).update(0, a + dollar_fields(t)[0]),
    decreases a.len(),
{
    lemma_dollar_fields_len(t);
    if a.len() == 0 {
        assert(a + t =~= t);
        assert(a + dollar_fields(t)[0] =~= dollar_fields(t)[0]);
        assert(dollar_fields(t).update(0, dollar_fields(t)[0]) =~= dollar_fields(t));
    } else {
        let f = dollar_fields(t);
        assert((a + t).drop_first() =~= a.drop_first() + t);
        assert((a + t)[0] == a[0]);
        lemma_dollar_fields_prefix(a.drop_first(), t);
        assert(seq![a[0]] + (a.drop_first() + f[0]) =~= a + f[0]);
        assert(f.update(0, a.drop_first() + f[0]).update(0, a + f[0]) =~= f.update(0, a + f[0]));
    }
}

/// A field with no `$`, then `$`, then the rest: the field comes first.
proof fn lemma_dollar_field_then(a: Seq<char>, r: Seq<char>)
    requires
        no_dollar(a),
    ensures
        dollar_fields(a + (seq!['$'] + r)) == seq![a] + dollar_fields(r),
{
    let t = seq!['$'] + r;
    lemma_dollar_fields_prefix(a, t);
    assert(t.drop_first() =~= r);
    assert(t[0] == '$');
    assert(dollar_fields(t) == seq![seq![]] + dollar_fields(r));
    assert(a + Seq::<char>::empty() =~= a);
    assert((seq![seq![]] + dollar_fields(r)).update(0, a) =~= seq![a] + dollar_fields(r));
}

proof fn lemma_dec_no_dollar(n: nat)
    ensures
        no_dollar(dec(n)),
    decreases n,
{
    if n >= 10 {
        lemma_dec_no_dollar(n / 10);
        let d = (n % 10) as int;
        assert(crate::text::digit_char(d) != '$');
        assert forall|i: int| 0 <= i < dec(n).len() implies dec(n)[i] != '$' by {
            if i < dec(n / 10).len() {
                assert(dec(n)[i] == dec(n / 10)[i]);
            }
        }
    } else {
        assert(crate::text::digit_char(n as int) != '$');
    }
}

/// The authenticator is the hex of the Triple-DES encryption, under the
/// password's first 24 bytes padded with `'0'`, of a plaintext whose
/// `$`-separated fields are, in this order, the eight-digit `rand`, the
/// EncryToken, the user id, the STB id, the IP, the MAC, an empty field and
/// `CTC` (when none of the values holds a `$`).
pub proof fn law_authenticator_field_order(
    user_id: Seq<char>,
    password: Seq<char>,
    stb_id: Seq<char>,
    ip: Seq<char>,
    mac: Seq<char>,
    encry_token: Seq<char>,
    rand: u64,
)
    requires
        10_000_000 <= rand <= 99_999_999,
        no_dollar(encry_token),
        no_dollar(user_id),
        no_dollar(stb_id),
        no_dollar(ip),
        no_dollar(mac),
    ensures
        exists|key: Seq<u8>, plain: Seq<char>|
            #![trigger tdes_ede3_ecb_pkcs7(key, encode_utf8(plain))]
            {
                &&& key.len() == 24
                &&& forall|i: int|
                    0 <= i < 24 ==> #[trigger] key[i] == if i < encode_utf8(password).len() {
                        encode_utf8(password)[i]
                    } else {
                        '0' as u8
                    }
                &&& dollar_fields(plain) == seq![
                    dec(rand as nat),
                    encry_token,
                    user_id,
                    stb_id,
                    ip,
                    mac,
                    Seq::<char>::empty(),
                    "CTC"@,
                ]
                &&& authenticator_spec(user_id, password, stb_id, ip, mac, encry_token, rand) == Ok::<
                    Seq<char>,
                    Seq<char>,
                >(hex_of(tdes_ede3_ecb_pkcs7(key, encode_utf8(plain))))
            },
{
    let key = auth_key(encode_utf8(password));
    let plain = auth_plaintext(rand, encry_token, user_id, stb_id, ip, mac);
    let d = seq!['$'];
    reveal_strlit("$");
    reveal_strlit("$$CTC");
    reveal_strlit("CTC");
    let ctc = "CTC"@;
    assert(no_dollar(ctc));
    assert(no_dollar(Seq::<char>::empty()));
    lemma_dec_no_dollar(rand as nat);
    // the tail `$$CTC`: an empty field, then `CTC`
    assert(dollar_fields(ctc) == seq![ctc]) by {
        lemma_dollar_fields_prefix(ctc, Seq::<char>::empty());
        assert(ctc + Seq::<char>::empty() =~= ctc);
        assert(dollar_fields(Seq::<char>::empty()) == seq![Seq::<char>::empty()]);
        assert(ctc + Seq::<char>::empty() =~= ctc);
        assert(seq![Seq::<char>::empty()].update(0, ctc) =~= seq![ctc]);
    }
    let e = Seq::<char>::empty();
    lemma_dollar_field_then(e, ctc);
    assert(e + (d + ctc) =~= d + ctc);
    let t5 = d + ctc;
    lemma_dollar_field_then(mac, t5);
    let t4 = mac + (d + t5);
    lemma_dollar_field_then(ip, t4);
    let t3 = ip + (d + t4);
    lemma_dollar_field_then(stb_id, t3);
    let t2 = stb_id + (d + t3);
    lemma_dollar_field_then(user_id, t2);
    let t1 = user_id + (d + t2);
    lemma_dollar_field_then(encry_token, t1);
    let t0 = encry_token + (d + t1);
    lemma_dollar_field_then(dec(rand as nat), t0);
    let whole = dec(rand as nat) + (d + t0);
    assert("$$CTC"@ =~= d + t5);
    assert("$"@ =~= d);
    assert(plain =~= whole);
    assert(dollar_fields(plain) =~= seq![
        dec(rand as nat),
        encry_token,
        user_id,
        stb_id,
        ip,
        mac,
        Seq::<char>::empty(),
        "CTC"@,
    ]);
    assert(tdes_ede3_ecb_pkcs7(key, encode_utf8(plain)) == tdes_ede3_ecb_pkcs7(key, encode_utf8(plain)));
}

/// An eight-digit number for the authenticator, from the current time in
/// nanoseconds.
pub open spec fn rand_from_nanos(nanos: u64) -> u64 {
    (10_000_000 + nanos % 90_000_000) as u64
}

pub fn random_8_digit_from(nanos: u64) -> (r: u64)
    ensures
        r == rand_from_nanos(nanos),
        10_000_000 <= r <= 99_999_999,
{
    10_000_000 + nanos % 90_000_000
}

} // verus!
