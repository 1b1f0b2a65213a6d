//! Who may open a pairing session: the request with where and when it came.
use vstd::prelude::*;

use crate::auth::now_secs;
use crate::server::http::Request;
use crate::server::state::AppState;

verus! {

/// A request together with the peer it came from and when it arrived.
#[derive(Debug)]
pub struct RequestContext {
    pub request: Request,
    pub peer_addr: Option<String>,
    pub received_at: u64,
}

impl RequestContext {
    /// The context of a request that arrives now.
    pub fn new(request: Request, peer_addr: Option<String>) -> (r: Self)
        ensures
            r.request == request,
            r.peer_addr == peer_addr,
    {
        RequestContext { request, peer_addr, received_at: now_secs() }
    }
}

/// What a policy decides of a request.
#[derive(Debug)]
pub enum PolicyDecision {
    Allow,
    Deny { status: u16, code: &'static str, message: &'static str },
}

/// Whether a pairing session may be opened for the request: every request
/// may, whatever its peer and time.
pub fn check_pairing_create(ctx: &RequestContext, state: &AppState) -> (r: PolicyDecision)
    ensures
        r is Allow,
{
    PolicyDecision::Allow
}

} // verus!
