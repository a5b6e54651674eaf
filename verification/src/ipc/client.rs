//! Request validation on the server side and reply checks on the client side.

use vstd::prelude::*;
use crate::json::Json;
use crate::ipc::envelope::{Envelope, EnvelopeType, ErrorCode, PROTOCOL_VERSION, is_error_payload, law_error_reply_reads_back};
use crate::ipc::error::{IpcError, ProtocolError};
use crate::text::{concat, decimal, dec};

verus! {

/// Whether a request is refused before it reaches the handler: another
/// protocol version, or `type: error` sent by a client.
pub open spec fn is_refused(req: Envelope) -> bool {
    req.v != PROTOCOL_VERSION || req.kind == EnvelopeType::Error
}

/// Whether `resp` is the error reply to the refused request `req`:
/// `unsupported_version` for another version, else `unknown_type`.
pub open spec fn refusal_of(req: Envelope, resp: Envelope) -> bool {
    &&& resp.v == PROTOCOL_VERSION
    &&& resp.kind == EnvelopeType::Error
    &&& resp.id == req.id
    &&& if req.v != PROTOCOL_VERSION {
        is_error_payload(resp.payload, ErrorCode::UnsupportedVersion, "unsupported version "@ + dec(req.v as nat))
    } else {
        is_error_payload(resp.payload, ErrorCode::UnknownType, "client must not send type error"@)
    }
}

/// Whether the server ends a connection after writing `resp`.
pub open spec fn closes(resp: Envelope) -> bool {
    resp.kind == EnvelopeType::Error && (resp.code_of() == Some(ErrorCode::UnsupportedVersion)
        || resp.code_of() == Some(ErrorCode::UnknownType))
}

/// Validates version and `type` before a request reaches the handler; a
/// refused request is answered with the returned error envelope.
pub fn validate_request(envelope: &Envelope) -> (r: Result<(), Envelope>)
    ensures
        match r {
            Ok(()) => !is_refused(*envelope),
            Err(e) => is_refused(*envelope) && refusal_of(*envelope, e),
        },
{
    if envelope.v != PROTOCOL_VERSION {
        let msg = concat("unsupported version ", decimal(envelope.v).as_str());
        return Err(Envelope::error_response(envelope.id, ErrorCode::UnsupportedVersion, msg));
    }
    match envelope.kind {
        EnvelopeType::Echo | EnvelopeType::Mcp | EnvelopeType::Shutdown => Ok(()),
        EnvelopeType::Error => Err(Envelope::error_response(
            envelope.id,
            ErrorCode::UnknownType,
            String::from_str("client must not send type error"),
        )),
    }
}

/// Whether the server ends a connection after sending `resp`: it does after
/// an `unsupported_version` or `unknown_type` error reply.
pub fn closes_connection(resp: &Envelope) -> (r: bool)
    ensures
        r == closes(*resp),
{
    if resp.kind == EnvelopeType::Error {
        match resp.error_code() {
            Some(ErrorCode::UnsupportedVersion) | Some(ErrorCode::UnknownType) => true,
            _ => false,
        }
    } else {
        false
    }
}

/// Checks the reply to request `id`: an error reply becomes a remote error,
/// a reply to another id is an invalid frame, anything else is returned.
pub fn check_reply(resp: Envelope, id: u64) -> (r: Result<Envelope, IpcError>)
    ensures
        resp.kind == EnvelopeType::Error ==> match r {
            Err(IpcError::Remote { code, message }) => {
                &&& code == match resp.code_of() { Some(c) => c, None => ErrorCode::InvalidFrame }
                &&& message@ == match resp.message_of() { Some(m) => m, None => "request failed"@ }
            },
            _ => false,
        },
        resp.kind != EnvelopeType::Error && resp.id != id ==> match r {
            Err(IpcError::Protocol(ProtocolError::InvalidFrame(m))) =>
                m@ == "response id mismatch: expected "@ + dec(id as nat) + ", got "@ + dec(resp.id as nat),
            _ => false,
        },
        resp.kind != EnvelopeType::Error && resp.id == id ==> r == Ok::<Envelope, IpcError>(resp),
{
    if resp.kind == EnvelopeType::Error {
        let code = match resp.error_code() {
            Some(c) => c,
            None => ErrorCode::InvalidFrame,
        };
        let message = match resp.error_message() {
            Some(m) => m.to_owned(),
            None => String::from_str("request failed"),
        };
        return Err(IpcError::remote(code, message));
    }
    if resp.id != id {
        let head = concat("response id mismatch: expected ", decimal(id).as_str());
        let mid = concat(head.as_str(), ", got ");
        let msg = concat(mid.as_str(), decimal(resp.id).as_str());
        return Err(IpcError::Protocol(ProtocolError::InvalidFrame(msg)));
    }
    Ok(resp)
}

/// Reads a checked shutdown reply: it must be `type: shutdown` with `ok: true`.
pub fn shutdown_reply(resp: &Envelope) -> (r: Result<(), IpcError>)
    ensures
        resp.kind != EnvelopeType::Shutdown ==> match r {
            Err(IpcError::UnexpectedType { expected, actual }) =>
                expected@ == "shutdown"@ && actual@ == resp.kind.debug_text(),
            _ => false,
        },
        resp.kind == EnvelopeType::Shutdown ==> {
            let ok = match resp.payload.field("ok"@) {
                Some(v) => v.boolean() == Some(true),
                None => false,
            };
            if ok { r is Ok } else { r == Err::<(), IpcError>(IpcError::MissingField("ok")) }
        },
{
    if resp.kind != EnvelopeType::Shutdown {
        return Err(IpcError::UnexpectedType { expected: "shutdown", actual: resp.kind.debug_name().to_owned() });
    }
    let ok = match resp.payload.get("ok") {
        Some(v) => match v.as_bool() {
            Some(b) => b,
            None => false,
        },
        None => false,
    };
    if !ok {
        return Err(IpcError::MissingField("ok"));
    }
    Ok(())
}

/// Reads a checked MCP reply: it must be `type: mcp`; its payload is the answer.
pub fn mcp_reply(resp: Envelope) -> (r: Result<Json, IpcError>)
    ensures
        resp.kind != EnvelopeType::Mcp ==> match r {
            Err(IpcError::UnexpectedType { expected, actual }) =>
                expected@ == "mcp"@ && actual@ == resp.kind.debug_text(),
            _ => false,
        },
        resp.kind == EnvelopeType::Mcp ==> r == Ok::<Json, IpcError>(resp.payload),
{
    if resp.kind != EnvelopeType::Mcp {
        return Err(IpcError::UnexpectedType { expected: "mcp", actual: resp.kind.debug_name().to_owned() });
    }
    Ok(resp.payload)
}

/// Whether `resp` answers `req` as the server does: the refusal when the
/// request is refused, otherwise what the handler `handle` gives for it.
pub open spec fn reply_to(req: Envelope, resp: Envelope, handle: spec_fn(Envelope) -> Envelope) -> bool {
    if is_refused(req) {
        refusal_of(req, resp)
    } else {
        resp == handle(req)
    }
}

/// Whether `replies` are what a connection's serving loop writes for the
/// requests `reqs` it reads, answering each with `respond` (the refusal or
/// the handler's reply): one reply per request, in order, stopping after a
/// reply that closes the connection or when reading ends.
pub open spec fn is_service(reqs: Seq<Envelope>, replies: Seq<Envelope>, handle: spec_fn(Envelope) -> Envelope) -> bool
    decreases reqs.len(),
{
    if reqs.len() == 0 {
        replies.len() == 0
    } else {
        &&& replies.len() > 0
        &&& reply_to(reqs[0], replies[0], handle)
        &&& if closes(replies[0]) {
            replies.len() == 1
        } else {
            is_service(reqs.drop_first(), replies.drop_first(), handle)
        }
    }
}

/// A refused request's reply always ends the connection.
pub proof fn law_refusal_closes(req: Envelope, resp: Envelope)
    requires
        refusal_of(req, resp),
    ensures
        closes(resp),
{
    if req.v != PROTOCOL_VERSION {
        law_error_reply_reads_back(resp, ErrorCode::UnsupportedVersion, "unsupported version "@ + dec(req.v as nat));
    } else {
        law_error_reply_reads_back(resp, ErrorCode::UnknownType, "client must not send type error"@);
    }
}

/// The server answers each request once, in order, and reads nothing after
/// refusing one: when request `k` is the first refused one and the handler
/// answered every earlier request without such an error, the connection
/// writes exactly `k + 1` replies, the handler's for the first `k` and the
/// refusal for request `k`.
pub proof fn law_serve_stops_after_refusal(
    reqs: Seq<Envelope>,
    replies: Seq<Envelope>,
    handle: spec_fn(Envelope) -> Envelope,
    k: int,
)
    requires
        is_service(reqs, replies, handle),
        0 <= k < reqs.len(),
        is_refused(reqs[k]),
        forall|i: int| 0 <= i < k ==> !is_refused(#[trigger] reqs[i]) && !closes(handle(reqs[i])),
    ensures
        replies.len() == k + 1,
        forall|i: int| 0 <= i < k ==> #[trigger] replies[i] == handle(reqs[i]),
        refusal_of(reqs[k], replies[k]),
    decreases k,
{
    if k == 0 {
        law_refusal_closes(reqs[0], replies[0]);
    } else {
        assert(!is_refused(reqs[0]) && !closes(handle(reqs[0])));
        let rq = reqs.drop_first();
        let rp = replies.drop_first();
        assert forall|i: int| 0 <= i < k - 1 implies !is_refused(#[trigger] rq[i]) && !closes(handle(rq[i])) by {
            assert(rq[i] == reqs[i + 1]);
        }
        law_serve_stops_after_refusal(rq, rp, handle, k - 1);
        assert forall|i: int| 0 <= i < k implies #[trigger] replies[i] == handle(reqs[i]) by {
            if i > 0 {
                assert(rp[i - 1] == replies[i]);
                assert(rq[i - 1] == reqs[i]);
            }
        }
        assert(rp[k - 1] == replies[k]);
    }
}

} // verus!
