//! Rewriting of multicast stream URLs through a udpxy relay.
use vstd::prelude::*;

use crate::text::{
    chars_of, extend_chars, has_prefix, lit, lower, slice_vec, starts_with, string_of, strip_trailing,
    strip_trailing_chars, to_lower, trim, trim_str,
};

verus! {

/// Where the udpxy relay listens, if one is configured.
#[derive(Debug)]
pub struct StreamProxyConfig {
    pub udpxy_base_url: Option<String>,
}

impl Default for StreamProxyConfig {
    fn default() -> (r: Self)
        ensures
            r.udpxy_base_url is None,
    {
        StreamProxyConfig { udpxy_base_url: None }
    }
}

impl Clone for StreamProxyConfig {
    fn clone(&self) -> (r: Self)
        ensures
            r == *self,
    {
        let udpxy_base_url = match &self.udpxy_base_url {
            Some(s) => Some(s.clone()),
            None => None,
        };
        StreamProxyConfig { udpxy_base_url }
    }
}

/// Why a stream URL could not be made playable.
#[derive(Debug, PartialEq, Eq)]
pub enum StreamResolveError {
    MissingUdpxy { source_url: String },
}

impl StreamResolveError {
    /// The human-readable message of the error.
    pub fn message(&self) -> (r: String)
        ensures
            r@ == missing_udpxy_message(self->source_url@),
    {
        match self {
            StreamResolveError::MissingUdpxy { source_url } => {
                let mut out = String::from_str("udpxy is required for multicast stream ");
                out.append(source_url.as_str());
                out
            },
        }
    }
}

pub open spec fn missing_udpxy_message(source_url: Seq<char>) -> Seq<char> {
    "udpxy is required for multicast stream "@ + source_url
}

/// The scheme and the address of a multicast URL (`igmp://` or `rtp://`,
/// in any case), or `None` for any other URL.
pub open spec fn multicast_parts_spec(url: Seq<char>) -> Option<(Seq<char>, Seq<char>)> {
    if starts_with(lower(url), "igmp://"@) {
        Some(("igmp"@, url.skip(7)))
    } else if starts_with(lower(url), "rtp://"@) {
        Some(("rtp"@, url.skip(6)))
    } else {
        None
    }
}

/// A udpxy base URL with whitespace and trailing slashes removed, and
/// `http://` put in front unless it names `http://` or `https://`.
pub open spec fn normalize_udpxy_spec(value: Seq<char>) -> Seq<char> {
    let t = strip_trailing(trim(value), '/');
    if starts_with(t, "http://"@) || starts_with(t, "https://"@) {
        t
    } else {
        "http://"@ + t
    }
}

/// A udpxy setting counts as configured unless it is blank once whitespace
/// and trailing slashes are removed.
pub open spec fn udpxy_configured(udpxy: Option<Seq<char>>) -> bool {
    match udpxy {
        Some(u) => strip_trailing(trim(u), '/').len() > 0,
        None => false,
    }
}

/// What `resolve_stream_url` returns: the URL itself unless it is a
/// multicast URL, a udpxy URL for a multicast URL when udpxy is configured,
/// and otherwise the error naming the multicast URL.
pub open spec fn resolve_spec(url: Seq<char>, udpxy: Option<Seq<char>>) -> Result<
    Seq<char>,
    Seq<char>,
> {
    match multicast_parts_spec(url) {
        None => Ok(url),
        Some((scheme, address)) => match udpxy {
            Some(u) if udpxy_configured(udpxy) => Ok(normalize_udpxy_spec(u) + "/udp/"@ + address),
            _ => Err(scheme + "://"@ + address),
        },
    }
}

/// `p` stays a prefix when something is appended.
proof fn lemma_prefix_append(a: Seq<char>, b: Seq<char>, p: Seq<char>)
    requires
        starts_with(a, p),
    ensures
        starts_with(a + b, p),
{
    assert((a + b).subrange(0, p.len() as int) =~= a.subrange(0, p.len() as int));
}

/// A URL handed to a client is the source URL itself when that is not a
/// multicast URL, and an `http://` or `https://` URL through udpxy when it
/// is; a multicast URL fails only when the udpxy base URL is missing or
/// blank.
pub proof fn law_resolved_urls_are_playable(url: Seq<char>, udpxy: Option<Seq<char>>)
    ensures
        multicast_parts_spec(url) is None ==> resolve_spec(url, udpxy) == Ok::<
            Seq<char>,
            Seq<char>,
        >(url),
        multicast_parts_spec(url) is Some ==> match resolve_spec(url, udpxy) {
            Ok(u) => starts_with(u, "http://"@) || starts_with(u, "https://"@),
            Err(_) => !udpxy_configured(udpxy),
        },
{
    reveal_strlit("http://");
    reveal_strlit("https://");
    if let Some(v) = udpxy {
        let t = strip_trailing(trim(v), '/');
        let n = normalize_udpxy_spec(v);
        if !(starts_with(t, "http://"@) || starts_with(t, "https://"@)) {
            assert(starts_with("http://"@, "http://"@)) by {
                assert("http://"@.subrange(0, 7) =~= "http://"@);
            }
            lemma_prefix_append("http://"@, t, "http://"@);
        }
        assert(starts_with(n, "http://"@) || starts_with(n, "https://"@));
        if let Some((scheme, address)) = multicast_parts_spec(url) {
            if starts_with(n, "http://"@) {
                lemma_prefix_append(n, "/udp/"@, "http://"@);
                lemma_prefix_append(n + "/udp/"@, address, "http://"@);
            } else {
                lemma_prefix_append(n, "/udp/"@, "https://"@);
                lemma_prefix_append(n + "/udp/"@, address, "https://"@);
            }
        }
    }
}

pub open spec fn opt_view(o: Option<String>) -> Option<Seq<char>> {
    match o {
        Some(s) => Some(s@),
        None => None,
    }
}

/// Turns a stream URL into one that a client can play.
pub fn resolve_stream_url(source_url: &str, config: &StreamProxyConfig) -> (r: Result<
    String,
    StreamResolveError,
>)
    ensures
        match resolve_spec(source_url@, opt_view(config.udpxy_base_url)) {
            Ok(u) => r matches Ok(s) && s@ == u,
            Err(src) => r matches Err(e) && e->source_url@ == src,
        },
{
    let url = chars_of(source_url);
    let parts = multicast_parts(url.as_slice());
    match parts {
        None => Ok(String::from_str(source_url)),
        Some((scheme, address)) => {
            let base = match &config.udpxy_base_url {
                Some(u) => normalize_udpxy(u.as_str()),
                None => None,
            };
            match base {
                Some(b) => {
                    let mut out = b;
                    extend_chars(&mut out, lit("/udp/").as_slice());
                    extend_chars(&mut out, address.as_slice());
                    Ok(string_of(out.as_slice()))
                },
                None => {
                    let mut out = scheme;
                    extend_chars(&mut out, lit("://").as_slice());
                    extend_chars(&mut out, address.as_slice());
                    Err(StreamResolveError::MissingUdpxy { source_url: string_of(out.as_slice()) })
                },
            }
        },
    }
}

fn multicast_parts(url: &[char]) -> (r: Option<(Vec<char>, Vec<char>)>)
    ensures
        match multicast_parts_spec(url@) {
            None => r is None,
            Some((s, a)) => r matches Some((s2, a2)) && s2@ == s && a2@ == a,
        },
{
    let lowered = to_lower(url);
    proof {
        reveal_strlit("igmp://");
        reveal_strlit("rtp://");
        assert(lower(url@).len() == url@.len());
    }
    if has_prefix(lowered.as_slice(), lit("igmp://").as_slice()) {
        Some((lit("igmp"), slice_vec(url, 7, url.len())))
    } else if has_prefix(lowered.as_slice(), lit("rtp://").as_slice()) {
        Some((lit("rtp"), slice_vec(url, 6, url.len())))
    } else {
        None
    }
}

fn normalize_udpxy(value: &str) -> (r: Option<Vec<char>>)
    ensures
        match r {
            Some(b) => udpxy_configured(Some(value@)) && b@ == normalize_udpxy_spec(value@),
            None => !udpxy_configured(Some(value@)),
        },
{
    let trimmed = trim_str(value);
    let t = strip_trailing_chars(trimmed.as_slice(), '/');
    if t.len() == 0 {
        return None;
    }
    if has_prefix(t.as_slice(), lit("http://").as_slice()) || has_prefix(
        t.as_slice(),
        lit("https://").as_slice(),
    ) {
        Some(t)
    } else {
        let mut out = lit("http://");
        extend_chars(&mut out, t.as_slice());
        Some(out)
    }
}

} // verus!
