use openpfe::ipc::envelope::{Envelope, EnvelopeType, ErrorCode};
use openpfe::json::{Json, JsonNumber};
use openpfe::mcp::McpHandler;
use openpfe::server::dispatch::{extract_jsonrpc_id, mcp_not_implemented_stub, IpcDispatch};

fn text(s: &str) -> Json {
    Json::String(s.to_string())
}

fn obj(members: Vec<(&str, Json)>) -> Json {
    Json::Object(members.into_iter().map(|(k, v)| (k.to_string(), v)).collect())
}

fn uint(n: u64) -> Json {
    Json::Number(JsonNumber::PosInt(n))
}

fn neg(n: i64) -> Json {
    Json::Number(JsonNumber::NegInt(n))
}

fn at<'a>(v: &'a Json, key: &str) -> &'a Json {
    v.get(key).expect(key)
}

fn test_handler() -> McpHandler<()> {
    McpHandler::new((), "0.1.0".to_string())
}

fn request(id: u64, method: &str) -> Json {
    obj(vec![("jsonrpc", text("2.0")), ("id", uint(id)), ("method", text(method))])
}

#[test]
fn tools_list_returns_jsonrpc_success() {
    let handler = test_handler();
    let req = request(1, "tools/list");
    let resp = handler.handle_jsonrpc(req);
    assert_eq!(at(&resp, "jsonrpc"), &text("2.0"));
    assert_eq!(at(&resp, "id"), &uint(1));
    assert!(resp.get("result").is_some());
    assert_eq!(at(at(&resp, "result"), "tools"), &Json::Array(vec![]));
}

#[test]
fn initialize_returns_jsonrpc_success() {
    let handler = test_handler();
    let req = obj(vec![
        ("jsonrpc", text("2.0")),
        ("id", uint(0)),
        ("method", text("initialize")),
        (
            "params",
            obj(vec![
                ("protocolVersion", text("2024-11-05")),
                ("capabilities", obj(vec![])),
                ("clientInfo", obj(vec![("name", text("test")), ("version", text("0"))])),
            ]),
        ),
    ]);
    let resp = handler.handle_jsonrpc(req);
    assert_eq!(at(&resp, "jsonrpc"), &text("2.0"));
    assert_eq!(at(&resp, "id"), &uint(0));
    assert!(at(at(at(&resp, "result"), "serverInfo"), "name").is_string());
}

#[test]
fn unknown_method_returns_32601() {
    let handler = test_handler();
    let req = request(7, "tools/call");
    let resp = handler.handle_jsonrpc(req);
    assert_eq!(at(at(&resp, "error"), "code"), &neg(-32601));
}

#[test]
fn batch_returns_two_responses() {
    let handler = test_handler();
    let second = obj(vec![
        ("jsonrpc", text("2.0")),
        ("id", uint(2)),
        ("method", text("tools/call")),
        ("params", obj(vec![])),
    ]);
    let batch = Json::Array(vec![request(1, "tools/list"), second]);
    let resp = handler.handle_jsonrpc(batch);
    let arr = match &resp {
        Json::Array(items) => items,
        _ => panic!("batch response"),
    };
    assert_eq!(arr.len(), 2);
    assert!(arr[0].get("result").is_some());
    assert_eq!(at(at(&arr[1], "error"), "code"), &neg(-32601));
}

#[test]
fn invalid_request_returns_32600() {
    let handler = test_handler();
    let req = obj(vec![("id", uint(1)), ("method", text("tools/list"))]);
    let resp = handler.handle_jsonrpc(req);
    assert_eq!(at(at(&resp, "error"), "code"), &neg(-32600));
}

#[test]
fn non_object_top_level_returns_32600() {
    let handler = test_handler();
    let resp = handler.handle_jsonrpc(text("not-json-rpc"));
    assert_eq!(at(at(&resp, "error"), "code"), &neg(-32600));
}

#[test]
fn mcp_stub_preserves_request_id() {
    let req = request(7, "tools/list");
    let resp = mcp_not_implemented_stub(req);
    assert_eq!(at(&resp, "id"), &uint(7));
    assert_eq!(at(at(&resp, "error"), "code"), &neg(-32601));
}

#[test]
fn initialize_reports_server_version_and_unknown_method_is_named() {
    let handler = McpHandler::new((), "1.2.3".to_string());
    let resp = handler.handle_jsonrpc(request(4, "initialize"));
    let info = at(at(&resp, "result"), "serverInfo");
    assert_eq!(at(info, "name"), &text("openpfe"));
    assert_eq!(at(info, "version"), &text("1.2.3"));
    let resp = handler.handle_jsonrpc(request(5, "resources/list"));
    assert_eq!(
        at(at(&resp, "error"), "message"),
        &text("Method not found: resources/list")
    );
}

#[test]
fn empty_batch_is_empty_reply() {
    let handler = test_handler();
    assert_eq!(handler.handle_jsonrpc(Json::Array(vec![])), Json::Array(vec![]));
}

#[test]
fn stub_id_defaults_to_null() {
    assert_eq!(extract_jsonrpc_id(obj(vec![("method", text("x"))])), Json::Null);
    assert_eq!(extract_jsonrpc_id(text("x")), Json::Null);
    assert_eq!(extract_jsonrpc_id(obj(vec![("id", text("abc"))])), text("abc"));
}

#[test]
fn dispatch_answers_echo_shutdown_mcp_and_error() {
    let d = IpcDispatch::new("http://127.0.0.1:9".to_string(), 42, "0.1.0".to_string());
    let (reply, stop) = d.handle(Envelope::request(1, EnvelopeType::Echo, obj(vec![])));
    assert!(!stop);
    assert_eq!(reply.kind, EnvelopeType::Echo);
    assert_eq!(reply.id, 1);
    assert_eq!(at(&reply.payload, "http_base_url"), &text("http://127.0.0.1:9"));
    assert_eq!(at(&reply.payload, "pid"), &uint(42));

    let (reply, stop) = d.handle(Envelope::request(2, EnvelopeType::Shutdown, obj(vec![])));
    assert!(stop);
    assert_eq!(reply.payload, obj(vec![("ok", Json::Bool(true))]));

    let (reply, stop) = d.handle(Envelope::request(3, EnvelopeType::Mcp, request(11, "tools/list")));
    assert!(!stop);
    assert_eq!(reply.kind, EnvelopeType::Mcp);
    assert_eq!(at(&reply.payload, "id"), &uint(11));

    let (reply, stop) = d.handle(Envelope::request(4, EnvelopeType::Error, obj(vec![])));
    assert!(!stop);
    assert_eq!(reply.error_code(), Some(ErrorCode::UnknownType));
}
