//! Channel lists served by an HTTP backend as JSON.
use vstd::prelude::*;

use crate::cache::Channel;
use crate::stream::{missing_udpxy_message, opt_view, resolve_spec, resolve_stream_url, StreamProxyConfig};

verus! {

/// A channel as the backend lists it.
#[derive(Debug)]
pub struct BackendChannel {
    pub number: u32,
    pub name: String,
    pub stream_url: String,
    pub channel_code: Option<String>,
}

/// The index of the first channel whose stream URL cannot be made playable.
pub open spec fn first_unplayable(raw: Seq<BackendChannel>, udpxy: Option<Seq<char>>, from: int) -> Option<int>
    decreases raw.len() - from,
{
    if from < 0 || from >= raw.len() {
        None
    } else if resolve_spec(raw[from].stream_url@, udpxy) is Err {
        Some(from)
    } else {
        first_unplayable(raw, udpxy, from + 1)
    }
}

proof fn lemma_first_unplayable(raw: Seq<BackendChannel>, udpxy: Option<Seq<char>>, from: int)
    requires
        0 <= from,
    ensures
        first_unplayable(raw, udpxy, from) is None ==> forall|j: int|
            from <= j < raw.len() ==> resolve_spec(raw[j].stream_url@, udpxy) is Ok,
    decreases raw.len() - from,
{
    if from < raw.len() && resolve_spec(raw[from].stream_url@, udpxy) is Ok {
        lemma_first_unplayable(raw, udpxy, from + 1);
    }
}

/// The backend's channels with playable stream URLs; it fails with the
/// message of the first channel whose URL cannot be made playable.
pub fn backend_channels(raw: Vec<BackendChannel>, stream: &StreamProxyConfig) -> (r: Result<Vec<Channel>, String>)
    ensures
        match first_unplayable(raw@, opt_view(stream.udpxy_base_url), 0) {
            Some(i) => r matches Err(m) && m@ == missing_udpxy_message(
                resolve_spec(raw@[i].stream_url@, opt_view(stream.udpxy_base_url))->Err_0,
            ),
            None => r matches Ok(v) && v@.len() == raw@.len() && forall|i: int|
                0 <= i < raw@.len() ==> {
                    &&& (#[trigger] v@[i]).number == raw@[i].number
                    &&& v@[i].name@ == raw@[i].name@
                    &&& v@[i].stream_url@ == resolve_spec(
                        raw@[i].stream_url@,
                        opt_view(stream.udpxy_base_url),
                    )->Ok_0
                    &&& opt_view(v@[i].channel_code) == opt_view(raw@[i].channel_code)
                },
        },
{
    let ghost udpxy = opt_view(stream.udpxy_base_url);
    let mut out: Vec<Channel> = Vec::new();
    let mut i: usize = 0;
    while i < raw.len()
        invariant
            i <= raw@.len(),
            out@.len() == i,
            udpxy == opt_view(stream.udpxy_base_url),
            first_unplayable(raw@, udpxy, 0) == first_unplayable(raw@, udpxy, i as int),
            forall|j: int|
                0 <= j < i ==> {
                    &&& (#[trigger] out@[j]).number == raw@[j].number
                    &&& out@[j].name@ == raw@[j].name@
                    &&& out@[j].stream_url@ == resolve_spec(raw@[j].stream_url@, udpxy)->Ok_0
                    &&& opt_view(out@[j].channel_code) == opt_view(raw@[j].channel_code)
                },
        decreases raw@.len() - i,
    {
        let ch = &raw[i];
        match resolve_stream_url(ch.stream_url.as_str(), stream) {
            Ok(url) => {
                out.push(
                    Channel {
                        number: ch.number,
                        name: ch.name.clone(),
                        stream_url: url,
                        channel_code: crate::cache::clone_opt_string(&ch.channel_code),
                    },
                );
            },
            Err(e) => return Err(e.message()),
        }
        i = i + 1;
    }
    proof {
        lemma_first_unplayable(raw@, udpxy, raw@.len() as int);
    }
    Ok(out)
}

} // verus!
