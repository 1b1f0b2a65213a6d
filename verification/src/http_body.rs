//! Decoding the portal's response bodies: by byte-order mark, by the
//! declared charset, as UTF-8, and as GB18030 when nothing else fits.
use vstd::prelude::*;
use vstd::utf8::{decode_utf8, valid_utf8};

use crate::split::{split_on, split_once_char, split_once_vec, split_vec};
use crate::text::{
    chars_of, lit, lower, seq_equal, string_of, to_lower, trim, trim_chars, trim_matches,
    trim_matches_chars,
};

verus! {

/// Which encoding a body was decoded with, and why.
#[derive(Debug, PartialEq, Eq)]
pub struct BodyEncoding {
    pub label: String,
    pub source: &'static str,
    pub had_errors: bool,
}

/// The charset that a `Content-Type` value declares in the first of its
/// `;`-separated parameters named `charset` (in any case), with quotes
/// trimmed and in lower case.
pub open spec fn charset_spec(pieces: Seq<Seq<char>>) -> Option<Seq<char>>
    decreases pieces.len(),
{
    if pieces.len() == 0 {
        None
    } else {
        match split_once_char(trim(pieces[0]), '=') {
            Some((name, value)) if lower(trim(name)) == "charset"@ => Some(
                lower(trim_matches(trim_matches(trim(value), '"'), '\'')),
            ),
            _ => charset_spec(pieces.drop_first()),
        }
    }
}

pub open spec fn charset_of(content_type: Seq<char>) -> Option<Seq<char>> {
    charset_spec(split_on(content_type, ';'))
}

pub fn charset_from_content_type(content_type: &str) -> (r: Option<String>)
    ensures
        match charset_of(content_type@) {
            Some(c) => r matches Some(x) && x@ == c,
            None => r is None,
        },
{
    let ct = chars_of(content_type);
    let pieces = split_vec(ct.as_slice(), ';');
    let ghost pv = pieces@.map_values(|v: Vec<char>| v@);
    let charset = lit("charset");
    let mut i: usize = 0;
    assert(pv.skip(0) =~= pv);
    while i < pieces.len()
        invariant
            charset@ == "charset"@,
            pv == pieces@.map_values(|v: Vec<char>| v@),
            i <= pieces@.len(),
            charset_of(content_type@) == charset_spec(pv.skip(i as int)),
            pv == split_on(ct@, ';'),
            ct@ == content_type@,
        decreases pieces@.len() - i,
    {
        assert(pv.skip(i as int).drop_first() =~= pv.skip(i + 1));
        assert(pv.skip(i as int)[0] == pieces@[i as int]@);
        let part = trim_chars(pieces[i].as_slice());
        match split_once_vec(part.as_slice(), '=') {
            Some((name, value)) => {
                let n = to_lower(trim_chars(name.as_slice()).as_slice());
                if seq_equal(n.as_slice(), charset.as_slice()) {
                    let v1 = trim_matches_chars(trim_chars(value.as_slice()).as_slice(), '"');
                    let v2 = trim_matches_chars(v1.as_slice(), '\'');
                    return Some(string_of(to_lower(v2.as_slice()).as_slice()));
                }
            },
            None => {},
        }
        i = i + 1;
    }
    None
}

/// The encoding that a byte-order mark at the start of the body names, as
/// a label, and the length of the mark.
pub open spec fn bom_spec(b: Seq<u8>) -> Option<(Seq<char>, int)> {
    if b.len() >= 3 && b[0] == 0xef && b[1] == 0xbb && b[2] == 0xbf {
        Some(("utf-8"@, 3))
    } else if b.len() >= 2 && b[0] == 0xff && b[1] == 0xfe {
        Some(("utf-16le"@, 2))
    } else if b.len() >= 2 && b[0] == 0xfe && b[1] == 0xff {
        Some(("utf-16be"@, 2))
    } else {
        None
    }
}

pub fn encoding_from_bom(bytes: &[u8]) -> (r: Option<(&'static str, usize)>)
    ensures
        match bom_spec(bytes@) {
            Some((l, n)) => r matches Some((x, m)) && x@ == l && m == n,
            None => r is None,
        },
{
    if bytes.len() >= 3 && bytes[0] == 0xef && bytes[1] == 0xbb && bytes[2] == 0xbf {
        Some(("utf-8", 3))
    } else if bytes.len() >= 2 && bytes[0] == 0xff && bytes[1] == 0xfe {
        Some(("utf-16le", 2))
    } else if bytes.len() >= 2 && bytes[0] == 0xfe && bytes[1] == 0xff {
        Some(("utf-16be", 2))
    } else {
        None
    }
}

/// What `encoding_rs` makes of `bytes` in the encoding that `label` names:
/// the text, the encoding's name and whether malformed sequences were
/// replaced; `None` when no encoding has that label.
pub uninterp spec fn decode_by_label(label: Seq<char>, bytes: Seq<u8>) -> Option<(Seq<char>, Seq<char>, bool)>;

/// `encoding_rs::Encoding::for_label`, and for the encoding found its
/// `decode` and `name`. The result depends on the label and the bytes
/// alone; the labels used for byte-order marks and the GB18030 fallback
/// are in `encoding_rs`'s label table, so they always name an encoding.
#[verifier::external_body]
fn decode_with_label(label: &str, bytes: &[u8]) -> (r: Option<(String, String, bool)>)
    ensures
        match decode_by_label(label@, bytes@) {
            Some((t, n, e)) => r matches Some((x, y, z)) && x@ == t && y@ == n && z == e,
            None => r is None,
        },
        (label@ == "utf-8"@ || label@ == "utf-16le"@ || label@ == "utf-16be"@ || label@
            == "gb18030"@) ==> r is Some,
{
    let encoding = encoding_rs::Encoding::for_label(label.as_bytes())?;
    let (text, _, had_errors) = encoding.decode(bytes);
    Some((text.into_owned(), encoding.name().to_string(), had_errors))
}

/// `std::str::from_utf8`: the text when the bytes are valid UTF-8.
#[verifier::external_body]
fn utf8_text(bytes: &[u8]) -> (r: Option<String>)
    ensures
        r is Some <==> valid_utf8(bytes@),
        r matches Some(s) ==> s@ == decode_utf8(bytes@),
{
    std::str::from_utf8(bytes).ok().map(String::from)
}

/// A decoded body: text, encoding label in lower case, why that encoding,
/// and whether malformed sequences were replaced.
pub open spec fn decoded_spec(bytes: Seq<u8>, content_type: Option<Seq<char>>) -> (Seq<char>, Seq<char>, Seq<char>, bool) {
    let by_bom = match bom_spec(bytes) {
        Some((l, n)) => decode_by_label(l, bytes.skip(n)),
        None => None,
    };
    let declared = match content_type {
        Some(ct) => match charset_of(ct) {
            Some(label) => decode_by_label(label, bytes),
            None => None,
        },
        None => None,
    };
    if by_bom is Some {
        let (t, n, e) = by_bom->Some_0;
        (t, lower(n), "bom"@, e)
    } else if declared is Some {
        let (t, n, e) = declared->Some_0;
        (t, lower(n), "content-type"@, e)
    } else if valid_utf8(bytes) {
        (decode_utf8(bytes), "utf-8"@, "utf8-valid"@, false)
    } else {
        let (t, n, e) = decode_by_label("gb18030"@, bytes)->Some_0;
        (t, lower(n), "utf8-invalid-fallback"@, e)
    }
}

fn encoding_info(name: String, source: &'static str, had_errors: bool) -> (r: BodyEncoding)
    ensures
        r.label@ == lower(name@),
        r.source@ == source@,
        r.had_errors == had_errors,
{
    BodyEncoding {
        label: string_of(to_lower(chars_of(name.as_str()).as_slice()).as_slice()),
        source,
        had_errors,
    }
}

pub fn decode_bytes(bytes: &[u8], content_type: Option<&str>) -> (r: (String, BodyEncoding))
    ensures
        ({
            let ct = match content_type {
                Some(c) => Some(c@),
                None => None,
            };
            let (t, l, s, e) = decoded_spec(bytes@, ct);
            r.0@ == t && r.1.label@ == l && r.1.source@ == s && r.1.had_errors == e
        }),
{
    if let Some((label, offset)) = encoding_from_bom(bytes) {
        let rest = slice_bytes(bytes, offset);
        if let Some((text, name, had_errors)) = decode_with_label(label, rest.as_slice()) {
            return (text, encoding_info(name, "bom", had_errors));
        }
    }
    if let Some(ct) = content_type {
        if let Some(label) = charset_from_content_type(ct) {
            if let Some((text, name, had_errors)) = decode_with_label(label.as_str(), bytes) {
                return (text, encoding_info(name, "content-type", had_errors));
            }
        }
    }
    if let Some(text) = utf8_text(bytes) {
        proof {
            reveal_strlit("utf-8");
        }
        return (
            text,
            BodyEncoding { label: String::from_str("utf-8"), source: "utf8-valid", had_errors: false },
        );
    }
    match decode_with_label("gb18030", bytes) {
        Some((text, name, had_errors)) => (
            text,
            encoding_info(name, "utf8-invalid-fallback", had_errors),
        ),
        None => vstd::pervasive::unreached(),
    }
}

fn slice_bytes(b: &[u8], from: usize) -> (r: Vec<u8>)
    requires
        from <= b@.len(),
    ensures
        r@ == b@.skip(from as int),
{
    let mut out: Vec<u8> = Vec::new();
    let mut i: usize = from;
    while i < b.len()
        invariant
            from <= i <= b@.len(),
            out@ == b@.subrange(from as int, i as int),
        decreases b@.len() - i,
    {
        out.push(b[i]);
        assert(b@.subrange(from as int, i + 1) =~= b@.subrange(from as int, i as int).push(b@[i as int]));
        i = i + 1;
    }
    assert(b@.subrange(from as int, b@.len() as int) =~= b@.skip(from as int));
    out
}

} // verus!
