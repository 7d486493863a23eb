//! One connection serves one request. Each time bytes arrive, the received
//! bytes decide the next step: wait for more, give up, or act on a request.
use vstd::prelude::*;
use crate::request::{ParseError, parse_request, request_spec};
use crate::router::{Action, route, route_spec};

verus! {

pub enum Step {
    /// The request is not complete yet and the peer may still send.
    ReadMore,
    /// The request is malformed, or the peer stopped sending before it was
    /// complete: close without a response.
    Close(ParseError),
    /// The request is complete: carry out this action, then close.
    Act(Action),
}

/// The step after receiving `received`; `peer_closed` tells whether the peer
/// has finished sending.
pub fn next_step(received: &[u8], peer_closed: bool) -> (r: Step)
    ensures
        match request_spec(received@) {
            Ok(req) => r matches Step::Act(a) && a@ == route_spec(req.method, req.path, req.headers, req.body)
                && (a matches Action::Respond(resp) ==> resp.headers.wf()),
            Err(ParseError::Incomplete) => if peer_closed {
                r == Step::Close(ParseError::Incomplete)
            } else {
                r is ReadMore
            },
            Err(x) => r == Step::Close(x),
        },
{
    match parse_request(received) {
        Ok(req) => Step::Act(route(req)),
        Err(ParseError::Incomplete) => if peer_closed {
            Step::Close(ParseError::Incomplete)
        } else {
            Step::ReadMore
        },
        Err(x) => Step::Close(x),
    }
}

} // verus!
