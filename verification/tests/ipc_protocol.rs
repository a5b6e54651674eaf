use openpfe::ipc::client::{check_reply, closes_connection, mcp_reply, shutdown_reply, validate_request};
use openpfe::ipc::connection::FramedConnection;
use openpfe::ipc::envelope::{
    EchoResponse, Envelope, EnvelopeType, ErrorCode, MAX_FRAME_BODY, PROTOCOL_VERSION,
};
use openpfe::ipc::error::{IpcError, ProtocolError};
use openpfe::ipc::frame::{length_prefix_len, FrameCodec, LeJsonCodec};
use openpfe::ipc::handler::{respond, RequestHandler};
use openpfe::json::{Json, JsonNumber};

fn text(s: &str) -> Json {
    Json::String(s.to_string())
}

fn obj(members: Vec<(&str, Json)>) -> Json {
    Json::Object(members.into_iter().map(|(k, v)| (k.to_string(), v)).collect())
}

fn uint(n: u64) -> Json {
    Json::Number(JsonNumber::PosInt(n))
}

/// JSON text of an envelope, as the wire carries it.
fn envelope_json(id: u64, kind: &str, payload: serde_json::Value) -> Vec<u8> {
    let mut m = serde_json::Map::new();
    m.insert("v".to_string(), serde_json::Value::from(PROTOCOL_VERSION));
    m.insert("type".to_string(), serde_json::Value::from(kind));
    m.insert("id".to_string(), serde_json::Value::from(id));
    m.insert("payload".to_string(), payload);
    serde_json::to_vec(&serde_json::Value::Object(m)).expect("serialize")
}

#[test]
fn le_json_codec_roundtrip() {
    let codec = LeJsonCodec;
    let body = envelope_json(7, "echo", serde_json::Value::Object(serde_json::Map::new()));
    let frame = codec.encode(&body).expect("encode");
    let (decoded, consumed) = codec.decode_frame(&frame).expect("decode");
    assert_eq!(consumed, frame.len());
    assert_eq!(decoded, body);
    let value: serde_json::Value = serde_json::from_slice(&decoded).expect("json");
    assert_eq!(value["v"], serde_json::Value::from(PROTOCOL_VERSION));
}

#[test]
fn oversize_body_rejected_on_encode() {
    let codec = LeJsonCodec;
    let huge = "x".repeat(MAX_FRAME_BODY + 1);
    let mut payload = serde_json::Map::new();
    payload.insert("data".to_string(), serde_json::Value::from(huge));
    let body = envelope_json(1, "mcp", serde_json::Value::Object(payload));
    let err = codec.encode(&body).unwrap_err();
    assert!(matches!(
        err,
        IpcError::Protocol(ProtocolError::PayloadTooLarge { .. })
    ));
}

#[test]
fn bad_length_prefix() {
    let codec = LeJsonCodec;
    let frame = [0u8, 0, 0, 0];
    let err = codec.decode_frame(&frame).unwrap_err();
    assert!(matches!(
        err,
        IpcError::Protocol(ProtocolError::InvalidFrame(_))
    ));
}

#[test]
fn length_exceeds_max() {
    let codec = LeJsonCodec;
    let length = (MAX_FRAME_BODY as u32).saturating_add(1);
    let frame = length.to_le_bytes().to_vec();
    let err = codec.decode_frame(&frame).unwrap_err();
    assert!(matches!(
        err,
        IpcError::Protocol(ProtocolError::InvalidFrame(_))
    ));
}

#[test]
fn bad_json_body() {
    let codec = LeJsonCodec;
    let body = b"not-json";
    let mut frame = (body.len() as u32).to_le_bytes().to_vec();
    frame.extend_from_slice(body);
    let (decoded, _) = codec.decode_frame(&frame).expect("frame");
    let err = serde_json::from_slice::<serde_json::Value>(&decoded)
        .map_err(|e| IpcError::Json(e.to_string()))
        .unwrap_err();
    assert!(matches!(err, IpcError::Json(_)));
}

#[test]
fn encode_prefix_is_little_endian_length() {
    let codec = LeJsonCodec;
    let body = vec![b'a'; 300];
    let frame = codec.encode(&body).expect("encode");
    assert_eq!(&frame[..4], &[44u8, 1, 0, 0]);
    assert_eq!(frame.len(), 304);
    assert_eq!(&frame[4..], &body[..]);
}

#[test]
fn frames_decode_in_order() {
    let codec = LeJsonCodec;
    let mut stream = codec.encode(b"{\"a\":1}").expect("first");
    stream.extend(codec.encode(b"[2]").expect("second"));
    let (first, used) = codec.decode_frame(&stream).expect("decode first");
    assert_eq!(first, b"{\"a\":1}".to_vec());
    let (second, used2) = codec.decode_frame(&stream[used..]).expect("decode second");
    assert_eq!(second, b"[2]".to_vec());
    assert_eq!(used + used2, stream.len());
}

#[test]
fn short_frame_is_incomplete() {
    let codec = LeJsonCodec;
    let err = codec.decode_frame(&[5u8, 0, 0, 0, b'x']).unwrap_err();
    assert_eq!(
        err,
        IpcError::Protocol(ProtocolError::Incomplete { needed: 9, available: 5 })
    );
    let err = length_prefix_len(&[1u8, 0]).unwrap_err();
    assert_eq!(
        err,
        IpcError::Protocol(ProtocolError::Incomplete { needed: 4, available: 2 })
    );
}

#[test]
fn invalid_prefix_message_names_length() {
    let err = length_prefix_len(&[0u8, 0, 0, 0]).unwrap_err();
    assert_eq!(
        err,
        IpcError::Protocol(ProtocolError::InvalidFrame("invalid length prefix: 0".to_string()))
    );
    assert_eq!(length_prefix_len(&[3u8, 0, 0, 0, 1, 2, 3]), Ok(7));
}

#[test]
fn connection_buffers_until_a_whole_frame() {
    let mut conn = FramedConnection::new((), ());
    let frame = LeJsonCodec.encode(b"{}").expect("encode");
    conn.receive(&frame[..3]);
    assert_eq!(conn.peek_frame(), Ok(None));
    conn.receive(&frame[3..]);
    let (body, used) = conn.peek_frame().expect("frame").expect("whole");
    assert_eq!(body, b"{}".to_vec());
    conn.consume(used);
    assert_eq!(conn.peek_frame(), Ok(None));
    assert_eq!(conn.frame_body(b"[]"), LeJsonCodec.encode(b"[]"));
    assert_eq!(
        conn.closed_error(),
        IpcError::Protocol(ProtocolError::InvalidFrame("connection closed".to_string()))
    );
    conn.receive(&[1u8, 0]);
    assert_eq!(
        conn.closed_error(),
        IpcError::Protocol(ProtocolError::Incomplete { needed: 4, available: 2 })
    );
}

#[test]
fn error_reply_reads_back() {
    let e = Envelope::error_response(9, ErrorCode::PayloadTooLarge, "too big".to_string());
    assert_eq!(e.kind, EnvelopeType::Error);
    assert_eq!(e.id, 9);
    assert_eq!(e.error_code(), Some(ErrorCode::PayloadTooLarge));
    assert_eq!(e.error_message(), Some("too big"));
    assert_eq!(ErrorCode::UnsupportedVersion.as_str(), "unsupported_version");
    assert_eq!(EnvelopeType::Shutdown.as_str(), "shutdown");
    assert_eq!(EnvelopeType::Mcp.debug_name(), "Mcp");
}

#[test]
fn echo_response_reads_fields() {
    let reply = Envelope::request(
        3,
        EnvelopeType::Echo,
        obj(vec![
            ("ok", Json::Bool(true)),
            ("http_base_url", text("http://127.0.0.1:18080")),
            ("pid", uint(4242)),
            ("version", text("test")),
        ]),
    );
    let echo = EchoResponse::from_envelope(&reply).expect("echo");
    assert_eq!(echo.http_base_url, "http://127.0.0.1:18080");
    assert_eq!(echo.pid, Some(4242));
    assert_eq!(echo.version, Some("test".to_string()));

    let missing = Envelope::request(3, EnvelopeType::Echo, obj(vec![("ok", Json::Bool(true))]));
    assert_eq!(
        EchoResponse::from_envelope(&missing),
        Err(IpcError::MissingField("http_base_url"))
    );

    let wrong = Envelope::request(3, EnvelopeType::Shutdown, obj(vec![]));
    assert_eq!(
        EchoResponse::from_envelope(&wrong),
        Err(IpcError::UnexpectedType { expected: "echo", actual: "Shutdown".to_string() })
    );

    let remote = Envelope::error_response(3, ErrorCode::UnknownType, "nope".to_string());
    assert_eq!(
        EchoResponse::from_envelope(&remote),
        Err(IpcError::Remote { code: ErrorCode::UnknownType, message: "nope".to_string() })
    );
}

#[test]
fn client_checks_replies() {
    let request = Envelope::request(5, EnvelopeType::Echo, obj(vec![]));
    assert!(validate_request(&request).is_ok());
    let mut old = Envelope::request(5, EnvelopeType::Echo, obj(vec![]));
    old.v = 2;
    let refused = validate_request(&old).unwrap_err();
    assert_eq!(refused.error_code(), Some(ErrorCode::UnsupportedVersion));

    let reply = Envelope::request(5, EnvelopeType::Echo, obj(vec![]));
    assert!(check_reply(reply, 5).is_ok());
    let reply = Envelope::request(6, EnvelopeType::Echo, obj(vec![]));
    assert_eq!(
        check_reply(reply, 5),
        Err(IpcError::Protocol(ProtocolError::InvalidFrame(
            "response id mismatch: expected 5, got 6".to_string()
        )))
    );

    let bye = Envelope::request(1, EnvelopeType::Shutdown, obj(vec![("ok", Json::Bool(true))]));
    assert!(!closes_connection(&bye));
    assert!(closes_connection(&refused));
    assert!(shutdown_reply(&bye).is_ok());
    let not_ok = Envelope::request(1, EnvelopeType::Shutdown, obj(vec![("ok", Json::Bool(false))]));
    assert_eq!(shutdown_reply(&not_ok), Err(IpcError::MissingField("ok")));

    let mcp = Envelope::request(2, EnvelopeType::Mcp, obj(vec![("x", uint(1))]));
    assert_eq!(mcp_reply(mcp), Ok(obj(vec![("x", uint(1))])));
}

#[test]
fn frames_come_out_in_order_whatever_the_chunks() {
    let mut stream = LeJsonCodec.encode(b"{\"a\":1}").expect("first");
    stream.extend(LeJsonCodec.encode(b"[2]").expect("second"));
    let mut conn = FramedConnection::new((), ());
    let mut bodies = Vec::new();
    for chunk in stream.chunks(3) {
        conn.receive(chunk);
        while let Some(body) = conn.take_frame().expect("frame") {
            bodies.push(body);
        }
    }
    assert_eq!(bodies, vec![b"{\"a\":1}".to_vec(), b"[2]".to_vec()]);
    assert_eq!(
        conn.closed_error(),
        IpcError::Protocol(ProtocolError::InvalidFrame("connection closed".to_string()))
    );
    conn.receive(&[0, 0, 0, 0]);
    assert_eq!(
        conn.take_frame(),
        Err(IpcError::Protocol(ProtocolError::InvalidFrame("invalid length prefix: 0".to_string())))
    );
}

struct Echo;

impl RequestHandler for Echo {
    fn handle(&self, envelope: Envelope) -> Envelope {
        Envelope::request(envelope.id, EnvelopeType::Echo, Json::Null)
    }
}

#[test]
fn refused_requests_end_the_connection() {
    let ok = Envelope::request(1, EnvelopeType::Echo, Json::Null);
    let (reply, close) = respond(&Echo, ok);
    assert_eq!(reply.kind, EnvelopeType::Echo);
    assert!(!close);
    let mut old = Envelope::request(2, EnvelopeType::Echo, Json::Null);
    old.v = PROTOCOL_VERSION + 1;
    let (reply, close) = respond(&Echo, old);
    assert_eq!(reply.kind, EnvelopeType::Error);
    assert_eq!(reply.error_code(), Some(ErrorCode::UnsupportedVersion));
    assert!(close);
    let (reply, close) = respond(&Echo, Envelope::request(3, EnvelopeType::Error, Json::Null));
    assert_eq!(reply.error_code(), Some(ErrorCode::UnknownType));
    assert!(close);
}
