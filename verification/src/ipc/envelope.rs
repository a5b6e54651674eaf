//! Envelope model: `v`, `type`, `id`, `payload`.

use vstd::prelude::*;
use crate::json::{Json, member};
use crate::ipc::error::IpcError;
use crate::text::str_eq;

verus! {

/// Protocol version carried on every frame (v1).
pub const PROTOCOL_VERSION: u64 = 1;

/// Maximum JSON body size in bytes (length prefix excluded).
pub const MAX_FRAME_BODY: usize = 16_777_216;

/// Default socket path relative to the project root / process cwd.
pub const DEFAULT_SOCKET_PATH: &'static str = "./.openpfe/server/socket";

/// Envelope `type` field values.
#[derive(Debug, Clone, Copy, PartialEq, Eq, Structural)]
pub enum EnvelopeType {
    Echo,
    Mcp,
    Shutdown,
    Error,
}

/// `type: error` payload `code` values.
#[derive(Debug, Clone, Copy, PartialEq, Eq, Structural)]
pub enum ErrorCode {
    UnsupportedVersion,
    UnknownType,
    InvalidFrame,
    PayloadTooLarge,
}

impl EnvelopeType {
    /// The variant's name as `{:?}` prints it.
    pub open spec fn debug_text(self) -> Seq<char> {
        match self {
            EnvelopeType::Echo => "Echo"@,
            EnvelopeType::Mcp => "Mcp"@,
            EnvelopeType::Shutdown => "Shutdown"@,
            EnvelopeType::Error => "Error"@,
        }
    }

    /// The wire name (`snake_case`).
    pub open spec fn wire(self) -> Seq<char> {
        match self {
            EnvelopeType::Echo => "echo"@,
            EnvelopeType::Mcp => "mcp"@,
            EnvelopeType::Shutdown => "shutdown"@,
            EnvelopeType::Error => "error"@,
        }
    }

    /// The variant's name as `{:?}` prints it.
    pub fn debug_name(&self) -> (s: &'static str)
        ensures
            s@ == self.debug_text(),
    {
        match self {
            EnvelopeType::Echo => "Echo",
            EnvelopeType::Mcp => "Mcp",
            EnvelopeType::Shutdown => "Shutdown",
            EnvelopeType::Error => "Error",
        }
    }

    /// The wire name (`snake_case`).
    pub fn as_str(&self) -> (s: &'static str)
        ensures
            s@ == self.wire(),
    {
        match self {
            EnvelopeType::Echo => "echo",
            EnvelopeType::Mcp => "mcp",
            EnvelopeType::Shutdown => "shutdown",
            EnvelopeType::Error => "error",
        }
    }
}

impl ErrorCode {
    /// The wire name (`snake_case`), which is also its display text.
    pub open spec fn wire(self) -> Seq<char> {
        match self {
            ErrorCode::UnsupportedVersion => "unsupported_version"@,
            ErrorCode::UnknownType => "unknown_type"@,
            ErrorCode::InvalidFrame => "invalid_frame"@,
            ErrorCode::PayloadTooLarge => "payload_too_large"@,
        }
    }

    /// The code whose wire name is `s`.
    pub open spec fn parse_wire(s: Seq<char>) -> Option<ErrorCode> {
        if s == "unsupported_version"@ {
            Some(ErrorCode::UnsupportedVersion)
        } else if s == "unknown_type"@ {
            Some(ErrorCode::UnknownType)
        } else if s == "invalid_frame"@ {
            Some(ErrorCode::InvalidFrame)
        } else if s == "payload_too_large"@ {
            Some(ErrorCode::PayloadTooLarge)
        } else {
            None
        }
    }

    /// The wire name (`snake_case`), which is also its display text.
    pub fn as_str(&self) -> (s: &'static str)
        ensures
            s@ == self.wire(),
    {
        match self {
            ErrorCode::UnsupportedVersion => "unsupported_version",
            ErrorCode::UnknownType => "unknown_type",
            ErrorCode::InvalidFrame => "invalid_frame",
            ErrorCode::PayloadTooLarge => "payload_too_large",
        }
    }

    /// The code a JSON value names: a string holding one of the wire names.
    pub fn from_wire(v: &Json) -> (r: Option<ErrorCode>)
        ensures
            r == match v.text() {
                Some(s) => ErrorCode::parse_wire(s),
                None => None,
            },
    {
        match v.as_str() {
            Some(s) => {
                if str_eq(s, "unsupported_version") {
                    Some(ErrorCode::UnsupportedVersion)
                } else if str_eq(s, "unknown_type") {
                    Some(ErrorCode::UnknownType)
                } else if str_eq(s, "invalid_frame") {
                    Some(ErrorCode::InvalidFrame)
                } else if str_eq(s, "payload_too_large") {
                    Some(ErrorCode::PayloadTooLarge)
                } else {
                    None
                }
            },
            None => None,
        }
    }
}

/// Wire envelope (`v`, `type`, `id`, `payload`).
#[derive(Debug, Clone, PartialEq)]
pub struct Envelope {
    pub v: u64,
    pub kind: EnvelopeType,
    pub id: u64,
    pub payload: Json,
}

/// The text of an optional JSON value, when it is a string.
pub open spec fn opt_text(v: Option<Json>) -> Option<Seq<char>> {
    match v {
        Some(j) => j.text(),
        None => None,
    }
}

/// Whether `p` is exactly `{"code": <code>, "message": <message>}`.
pub open spec fn is_error_payload(p: Json, code: ErrorCode, message: Seq<char>) -> bool {
    match p {
        Json::Object(m) => {
            &&& m@.len() == 2
            &&& m@[0].0@ == "code"@
            &&& m@[0].1.text() == Some(code.wire())
            &&& m@[1].0@ == "message"@
            &&& m@[1].1.text() == Some(message)
        },
        _ => false,
    }
}

impl Envelope {
    /// The code of an error reply: `payload.code` of a `type: error` envelope.
    pub open spec fn code_of(self) -> Option<ErrorCode> {
        if self.kind != EnvelopeType::Error {
            None
        } else {
            match opt_text(self.payload.field("code"@)) {
                Some(s) => ErrorCode::parse_wire(s),
                None => None,
            }
        }
    }

    /// `payload.message` when it is a string.
    pub open spec fn message_of(self) -> Option<Seq<char>> {
        opt_text(self.payload.field("message"@))
    }

    /// A request envelope at the current protocol version.
    pub fn request(id: u64, kind: EnvelopeType, payload: Json) -> (e: Envelope)
        ensures
            e == (Envelope { v: PROTOCOL_VERSION, kind, id, payload }),
    {
        Envelope { v: PROTOCOL_VERSION, kind, id, payload }
    }

    /// A `type: error` reply to request `request_id`.
    pub fn error_response(request_id: u64, code: ErrorCode, message: String) -> (e: Envelope)
        ensures
            e.v == PROTOCOL_VERSION,
            e.kind == EnvelopeType::Error,
            e.id == request_id,
            is_error_payload(e.payload, code, message@),
    {
        let members = vec![
            (String::from_str("code"), Json::from_str(code.as_str())),
            (String::from_str("message"), Json::String(message)),
        ];
        proof {
            reveal_strlit("code");
            reveal_strlit("message");
        }
        Envelope { v: PROTOCOL_VERSION, kind: EnvelopeType::Error, id: request_id, payload: Json::Object(members) }
    }

    /// The code of an error reply, when it names a known code.
    pub fn error_code(&self) -> (r: Option<ErrorCode>)
        ensures
            r == self.code_of(),
    {
        if self.kind != EnvelopeType::Error {
            return None;
        }
        match self.payload.get("code") {
            Some(v) => ErrorCode::from_wire(v),
            None => None,
        }
    }

    /// `payload.message` when it is a string.
    pub fn error_message(&self) -> (r: Option<&str>)
        ensures
            match r {
                Some(s) => self.message_of() == Some(s@),
                None => self.message_of() is None,
            },
    {
        match self.payload.get("message") {
            Some(v) => v.as_str(),
            None => None,
        }
    }
}

/// A code's wire name names that code.
pub proof fn lemma_wire_roundtrip(code: ErrorCode)
    ensures
        ErrorCode::parse_wire(code.wire()) == Some(code),
{
    reveal_strlit("unsupported_version");
    reveal_strlit("unknown_type");
    reveal_strlit("invalid_frame");
    reveal_strlit("payload_too_large");
    assert("unsupported_version"@.len() == 19);
    assert("unknown_type"@.len() == 12);
    assert("invalid_frame"@.len() == 13);
    assert("payload_too_large"@.len() == 17);
}

/// An error reply reads back what it was built from: for every error
/// envelope whose payload is `{"code": c, "message": m}`, the reply's code
/// is `c` and its message is `m` (as `error_response` builds them).
pub proof fn law_error_reply_reads_back(e: Envelope, code: ErrorCode, message: Seq<char>)
    requires
        e.kind == EnvelopeType::Error,
        is_error_payload(e.payload, code, message),
    ensures
        e.code_of() == Some(code),
        e.message_of() == Some(message),
{
    lemma_wire_roundtrip(code);
    reveal_strlit("code");
    reveal_strlit("message");
    match e.payload {
        Json::Object(m) => {
            assert(m@.drop_first()[0] == m@[1]);
            assert("code"@.len() == 4);
            assert("message"@.len() == 7);
            assert(member(m@.drop_first(), "message"@) == Some(m@[1].1));
        },
        _ => {},
    }
}

/// Parsed fields from a successful `type: echo` reply.
#[derive(Debug, Clone, PartialEq, Eq)]
pub struct EchoResponse {
    pub http_base_url: String,
    pub pid: Option<u64>,
    pub version: Option<String>,
}

/// The text of an optional string.
pub open spec fn opt_view(s: Option<String>) -> Option<Seq<char>> {
    match s {
        Some(x) => Some(x@),
        None => None,
    }
}

/// An optional JSON value read as a non-negative integer.
pub open spec fn opt_unsigned(v: Option<Json>) -> Option<u64> {
    match v {
        Some(j) => j.unsigned(),
        None => None,
    }
}

impl EchoResponse {
    /// Reads an echo reply: remote errors and wrong reply types are errors,
    /// `http_base_url` is required, `pid` and `version` are optional.
    pub fn from_envelope(envelope: &Envelope) -> (r: Result<EchoResponse, IpcError>)
        ensures
            envelope.kind == EnvelopeType::Error ==> match r {
                Err(IpcError::Remote { code, message }) => {
                    &&& code == match envelope.code_of() { Some(c) => c, None => ErrorCode::InvalidFrame }
                    &&& message@ == match envelope.message_of() { Some(m) => m, None => "echo failed"@ }
                },
                _ => false,
            },
            envelope.kind != EnvelopeType::Error && envelope.kind != EnvelopeType::Echo ==> match r {
                Err(IpcError::UnexpectedType { expected, actual }) =>
                    expected@ == "echo"@ && actual@ == envelope.kind.debug_text(),
                _ => false,
            },
            envelope.kind == EnvelopeType::Echo ==> match opt_text(envelope.payload.field("http_base_url"@)) {
                None => r == Err::<EchoResponse, IpcError>(IpcError::MissingField("http_base_url")),
                Some(url) => match r {
                    Ok(resp) => {
                        &&& resp.http_base_url@ == url
                        &&& resp.pid == opt_unsigned(envelope.payload.field("pid"@))
                        &&& opt_view(resp.version) == opt_text(envelope.payload.field("version"@))
                    },
                    Err(_) => false,
                },
            },
    {
        if envelope.kind == EnvelopeType::Error {
            let code = match envelope.error_code() {
                Some(c) => c,
                None => ErrorCode::InvalidFrame,
            };
            let message = match envelope.error_message() {
                Some(m) => m.to_owned(),
                None => String::from_str("echo failed"),
            };
            return Err(IpcError::remote(code, message));
        }
        if envelope.kind != EnvelopeType::Echo {
            return Err(IpcError::UnexpectedType {
                expected: "echo",
                actual: envelope.kind.debug_name().to_owned(),
            });
        }
        let url = match envelope.payload.get("http_base_url") {
            Some(v) => match v.as_str() {
                Some(s) => s,
                None => return Err(IpcError::MissingField("http_base_url")),
            },
            None => return Err(IpcError::MissingField("http_base_url")),
        };
        let pid = match envelope.payload.get("pid") {
            Some(v) => v.as_u64(),
            None => None,
        };
        let version = match envelope.payload.get("version") {
            Some(v) => match v.as_str() {
                Some(s) => Some(s.to_owned()),
                None => None,
            },
            None => None,
        };
        Ok(EchoResponse { http_base_url: url.to_owned(), pid, version })
    }
}

} // verus!
