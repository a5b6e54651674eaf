//! Control-socket request dispatch (`echo`, `shutdown`, MCP stub).

use vstd::prelude::*;
use crate::json::{Json, JsonNumber};
use crate::ipc::envelope::{Envelope, EnvelopeType, ErrorCode, PROTOCOL_VERSION, is_error_payload};
use crate::mcp::{is_error_reply, take_member};

verus! {

/// The request id a stub reply carries: the payload's `id`, else the first
/// batch element's `id`, else `null`.
pub open spec fn stub_id(payload: Json) -> Json {
    match payload.field("id"@) {
        Some(id) => id,
        None => match payload {
            Json::Array(items) => if items@.len() > 0 {
                match items@[0].field("id"@) {
                    Some(id) => id,
                    None => Json::Null,
                }
            } else {
                Json::Null
            },
            _ => Json::Null,
        },
    }
}

/// The `id` of a JSON-RPC request or of the first request of a batch.
pub fn extract_jsonrpc_id(payload: Json) -> (r: Json)
    ensures
        r == stub_id(payload),
{
    match payload {
        Json::Object(members) => {
            let mut members = members;
            match take_member(&mut members, "id") {
                Some(id) => id,
                None => Json::Null,
            }
        },
        Json::Array(items) => {
            let mut items = items;
            if items.len() == 0 {
                return Json::Null;
            }
            let first = items.remove(0);
            match first {
                Json::Object(members) => {
                    let mut members = members;
                    match take_member(&mut members, "id") {
                        Some(id) => id,
                        None => Json::Null,
                    }
                },
                _ => Json::Null,
            }
        },
        _ => Json::Null,
    }
}

/// JSON-RPC "method not found" reply used while MCP is not mounted on the socket.
pub fn mcp_not_implemented_stub(request_payload: Json) -> (r: Json)
    ensures
        is_error_reply(r, stub_id(request_payload), -32601i64,
            "Method not found (openpfe-mcp not mounted in phase 1)"@),
{
    let id = extract_jsonrpc_id(request_payload);
    let err = Json::Object(vec![
        (String::from_str("code"), Json::Number(JsonNumber::NegInt(-32601))),
        (String::from_str("message"), Json::from_str("Method not found (openpfe-mcp not mounted in phase 1)")),
    ]);
    Json::Object(vec![
        (String::from_str("jsonrpc"), Json::from_str("2.0")),
        (String::from_str("id"), id),
        (String::from_str("error"), err),
    ])
}

/// Whether `p` is the echo payload `{"ok": true, "http_base_url": url, "pid": pid, "version": version}`.
pub open spec fn is_echo_payload(p: Json, url: Seq<char>, pid: u64, version: Seq<char>) -> bool {
    match p {
        Json::Object(m) => {
            &&& m@.len() == 4
            &&& m@[0].0@ == "ok"@ && m@[0].1 == Json::Bool(true)
            &&& m@[1].0@ == "http_base_url"@ && m@[1].1.is_text(url)
            &&& m@[2].0@ == "pid"@ && m@[2].1 == Json::Number(JsonNumber::PosInt(pid))
            &&& m@[3].0@ == "version"@ && m@[3].1.is_text(version)
        },
        _ => false,
    }
}

/// Dispatch state: what `echo` reports.
pub struct IpcDispatch {
    http_base_url: String,
    pid: u64,
    version: String,
}

impl IpcDispatch {
    pub closed spec fn base_url(&self) -> Seq<char> {
        self.http_base_url@
    }

    pub closed spec fn process_id(&self) -> u64 {
        self.pid
    }

    pub closed spec fn server_version(&self) -> Seq<char> {
        self.version@
    }

    /// Dispatch that reports `http_base_url`, `pid` and `version` on echo.
    pub fn new(http_base_url: String, pid: u64, version: String) -> (d: Self)
        ensures
            d.base_url() == http_base_url@,
            d.process_id() == pid,
            d.server_version() == version@,
    {
        IpcDispatch { http_base_url, pid, version }
    }

    /// The reply to a validated request, and whether the server must shut down.
    pub fn handle(&self, envelope: Envelope) -> (r: (Envelope, bool))
        ensures
            envelope.kind == EnvelopeType::Echo ==> {
                &&& r.0.v == envelope.v && r.0.kind == EnvelopeType::Echo && r.0.id == envelope.id
                &&& is_echo_payload(r.0.payload, self.base_url(), self.process_id(), self.server_version())
                &&& !r.1
            },
            envelope.kind == EnvelopeType::Shutdown ==> {
                &&& r.0.v == envelope.v && r.0.kind == EnvelopeType::Shutdown && r.0.id == envelope.id
                &&& r.0.payload matches Json::Object(m) && m@.len() == 1 && m@[0].0@ == "ok"@
                    && m@[0].1 == Json::Bool(true)
                &&& r.1
            },
            envelope.kind == EnvelopeType::Mcp ==> {
                &&& r.0.v == envelope.v && r.0.kind == EnvelopeType::Mcp && r.0.id == envelope.id
                &&& is_error_reply(r.0.payload, stub_id(envelope.payload), -32601i64,
                    "Method not found (openpfe-mcp not mounted in phase 1)"@)
                &&& !r.1
            },
            envelope.kind == EnvelopeType::Error ==> {
                &&& r.0.v == PROTOCOL_VERSION && r.0.kind == EnvelopeType::Error && r.0.id == envelope.id
                &&& is_error_payload(r.0.payload, ErrorCode::UnknownType, "server must not receive type error"@)
                &&& !r.1
            },
    {
        match envelope.kind {
            EnvelopeType::Echo => {
                let payload = Json::Object(vec![
                    (String::from_str("ok"), Json::Bool(true)),
                    (String::from_str("http_base_url"), Json::from_str(self.http_base_url.as_str())),
                    (String::from_str("pid"), Json::Number(JsonNumber::PosInt(self.pid))),
                    (String::from_str("version"), Json::from_str(self.version.as_str())),
                ]);
                (Envelope { v: envelope.v, kind: EnvelopeType::Echo, id: envelope.id, payload }, false)
            },
            EnvelopeType::Shutdown => {
                let payload = Json::Object(vec![(String::from_str("ok"), Json::Bool(true))]);
                (Envelope { v: envelope.v, kind: EnvelopeType::Shutdown, id: envelope.id, payload }, true)
            },
            EnvelopeType::Mcp => {
                let id = envelope.id;
                let v = envelope.v;
                let payload = mcp_not_implemented_stub(envelope.payload);
                (Envelope { v, kind: EnvelopeType::Mcp, id, payload }, false)
            },
            EnvelopeType::Error => (
                Envelope::error_response(
                    envelope.id,
                    ErrorCode::UnknownType,
                    String::from_str("server must not receive type error"),
                ),
                false,
            ),
        }
    }
}

} // verus!
