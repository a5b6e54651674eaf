//! The server side of a connection: the request handler and one request's answer.

use vstd::prelude::*;
use crate::ipc::client::{closes, closes_connection, is_refused, refusal_of, reply_to, validate_request};
use crate::ipc::envelope::Envelope;

verus! {

/// Handles one validated envelope and returns the response envelope.
pub trait RequestHandler: Send + Sync {
    fn handle(&self, envelope: Envelope) -> Envelope;
}

/// Answers one request as the serving loop does: a refused request gets
/// its refusal and the handler is not called; any other request goes to
/// `handler`. Also says whether the connection ends after the answer.
pub fn respond<H: RequestHandler>(handler: &H, request: Envelope) -> (r: (Envelope, bool))
    ensures
        r.1 == closes(r.0),
        is_refused(request) ==> refusal_of(request, r.0) && r.1,
        !is_refused(request) ==> call_ensures(H::handle, (handler, request), r.0),
{
    let reply = match validate_request(&request) {
        Ok(()) => handler.handle(request),
        Err(refusal) => {
            proof {
                crate::ipc::client::law_refusal_closes(request, refusal);
            }
            refusal
        },
    };
    let close = closes_connection(&reply);
    (reply, close)
}

/// `respond` answers as the serving loop's model does: when the handler
/// can only give `handle(request)` for a request, the answer `respond`
/// gives is `reply_to` that request: its refusal when it is refused,
/// otherwise exactly the handler's reply.
pub proof fn law_respond_answers<H: RequestHandler>(
    handler: &H,
    request: Envelope,
    answer: Envelope,
    handle: spec_fn(Envelope) -> Envelope,
)
    requires
        is_refused(request) ==> refusal_of(request, answer),
        !is_refused(request) ==> call_ensures(H::handle, (handler, request), answer),
        forall|out: Envelope| call_ensures(H::handle, (handler, request), out) ==> out == handle(request),
    ensures
        reply_to(request, answer, handle),
        !is_refused(request) ==> answer == handle(request),
{
}

} // verus!
