//! MCP JSON-RPC handler (first stage: `initialize` and `tools/list`).
//!
//! Single requests and batches in, replies out. `initialize` and
//! `tools/list` succeed; every other method is `-32601`; malformed requests
//! are `-32600`; notifications (no `id`) get no reply.

use vstd::prelude::*;
use crate::json::{Json, JsonNumber, member};
use crate::ipc::envelope::opt_text;
use crate::text::{concat, str_eq};

verus! {

/// Whether `r` is a JSON-RPC 2.0 request: an object with `"jsonrpc": "2.0"`
/// and a string `method`.
pub open spec fn jsonrpc_valid(r: Json) -> bool {
    &&& r is Object
    &&& opt_text(r.field("jsonrpc"@)) == Some("2.0"@)
    &&& match r.field("method"@) {
        Some(m) => m is String,
        None => false,
    }
}

/// The request's method name, or the empty text when it has none.
pub open spec fn method_of(r: Json) -> Seq<char> {
    match opt_text(r.field("method"@)) {
        Some(s) => s,
        None => Seq::empty(),
    }
}

/// Whether `out` is `{"jsonrpc": "2.0", "id": id, "error": {"code": code, "message": message}}`.
pub open spec fn is_error_reply(out: Json, id: Json, code: i64, message: Seq<char>) -> bool {
    match out {
        Json::Object(m) => {
            &&& m@.len() == 3
            &&& m@[0].0@ == "jsonrpc"@ && m@[0].1.is_text("2.0"@)
            &&& m@[1].0@ == "id"@ && m@[1].1 == id
            &&& m@[2].0@ == "error"@
            &&& match m@[2].1 {
                Json::Object(e) => {
                    &&& e@.len() == 2
                    &&& e@[0].0@ == "code"@ && e@[0].1 == Json::Number(JsonNumber::NegInt(code))
                    &&& e@[1].0@ == "message"@ && e@[1].1.is_text(message)
                },
                _ => false,
            }
        },
        _ => false,
    }
}

/// The `result` of a reply shaped `{"jsonrpc": "2.0", "id": id, "result": result}`.
pub open spec fn success_result(out: Json, id: Json) -> Option<Json> {
    match out {
        Json::Object(m) => {
            if m@.len() == 3 && m@[0].0@ == "jsonrpc"@ && m@[0].1.is_text("2.0"@)
                && m@[1].0@ == "id"@ && m@[1].1 == id && m@[2].0@ == "result"@ {
                Some(m@[2].1)
            } else {
                None
            }
        },
        _ => None,
    }
}

/// Whether `res` is the `initialize` result: protocol `2024-11-05`, a
/// `tools` capability, and server info `openpfe` at `version`.
pub open spec fn is_initialize_result(res: Json, version: Seq<char>) -> bool {
    match res {
        Json::Object(m) => {
            &&& m@.len() == 3
            &&& m@[0].0@ == "protocolVersion"@ && m@[0].1.is_text("2024-11-05"@)
            &&& m@[1].0@ == "capabilities"@ && match m@[1].1 {
                Json::Object(c) => c@.len() == 1 && c@[0].0@ == "tools"@
                    && (c@[0].1 matches Json::Object(t) && t@.len() == 0),
                _ => false,
            }
            &&& m@[2].0@ == "serverInfo"@ && match m@[2].1 {
                Json::Object(s) => s@.len() == 2 && s@[0].0@ == "name"@ && s@[0].1.is_text("openpfe"@)
                    && s@[1].0@ == "version"@ && s@[1].1.is_text(version),
                _ => false,
            }
        },
        _ => false,
    }
}

/// Whether `res` is the `tools/list` result: `{"tools": []}`.
pub open spec fn is_tools_list_result(res: Json) -> bool {
    match res {
        Json::Object(m) => m@.len() == 1 && m@[0].0@ == "tools"@
            && (m@[0].1 matches Json::Array(t) && t@.len() == 0),
        _ => false,
    }
}

/// Whether `out` is the reply to `req` (which carries an `id`).
pub open spec fn reply_ok(req: Json, out: Json, version: Seq<char>) -> bool {
    let id = req.field("id"@)->0;
    if !jsonrpc_valid(req) {
        is_error_reply(out, id, -32600i64, "Invalid Request"@)
    } else if method_of(req) == "initialize"@ {
        match success_result(out, id) {
            Some(res) => is_initialize_result(res, version),
            None => false,
        }
    } else if method_of(req) == "tools/list"@ {
        match success_result(out, id) {
            Some(res) => is_tools_list_result(res),
            None => false,
        }
    } else {
        is_error_reply(out, id, -32601i64, "Method not found: "@ + method_of(req))
    }
}

/// Whether `outs` are the replies to the batch `items`, in order: one per
/// request that carries an `id`, none for notifications.
pub open spec fn batch_ok(items: Seq<Json>, outs: Seq<Json>, version: Seq<char>) -> bool
    decreases items.len(),
{
    if items.len() == 0 {
        outs.len() == 0
    } else if items.last().field("id"@) is None {
        batch_ok(items.drop_last(), outs, version)
    } else {
        &&& outs.len() > 0
        &&& reply_ok(items.last(), outs.last(), version)
        &&& batch_ok(items.drop_last(), outs.drop_last(), version)
    }
}

/// Removes and returns the first member with key `key`.
pub fn take_member(members: &mut Vec<(String, Json)>, key: &str) -> (r: Option<Json>)
    ensures
        r == member(old(members)@, key@),
{
    let mut i: usize = 0;
    assert(old(members)@.skip(0) =~= old(members)@);
    while i < members.len()
        invariant
            members@ == old(members)@,
            i <= members.len(),
            member(members@, key@) == member(members@.skip(i as int), key@),
        decreases members.len() - i,
    {
        let ghost rest = members@.skip(i as int);
        assert(rest.drop_first() =~= members@.skip(i + 1));
        assert(rest[0] == members@[i as int]);
        if str_eq(members[i].0.as_str(), key) {
            let (_, v) = members.remove(i);
            return Some(v);
        }
        i += 1;
    }
    assert(members@.skip(i as int).len() == 0);
    None
}

/// `(key, value)` as an object member.
fn entry(key: &str, value: Json) -> (r: (String, Json))
    ensures
        r.0@ == key@,
        r.1 == value,
{
    (key.to_owned(), value)
}

/// `{"jsonrpc": "2.0", "id": id, "error": {"code": code, "message": message}}`.
fn error_reply(id: Json, code: i64, message: String) -> (r: Json)
    ensures
        is_error_reply(r, id, code, message@),
{
    let err = Json::Object(vec![
        entry("code", Json::Number(JsonNumber::NegInt(code))),
        entry("message", Json::String(message)),
    ]);
    Json::Object(vec![entry("jsonrpc", Json::from_str("2.0")), entry("id", id), entry("error", err)])
}

/// `{"jsonrpc": "2.0", "id": id, "result": result}`.
fn success_reply(id: Json, result: Json) -> (r: Json)
    ensures
        success_result(r, id) == Some(result),
{
    Json::Object(vec![entry("jsonrpc", Json::from_str("2.0")), entry("id", id), entry("result", result)])
}

/// Shared MCP handler for the control socket's `type: mcp` and the debug HTTP route.
pub struct McpHandler<G> {
    graph: G,
    server_version: String,
}

impl<G> McpHandler<G> {
    /// The server version reported by `initialize`.
    pub closed spec fn version(&self) -> Seq<char> {
        self.server_version@
    }

    /// The graph handle the handler holds.
    pub closed spec fn graph_handle(&self) -> G {
        self.graph
    }

    /// A handler over the graph handle `graph`, reporting `server_version`.
    pub fn new(graph: G, server_version: String) -> (h: Self)
        ensures
            h.version() == server_version@,
            h.graph_handle() == graph,
    {
        McpHandler { graph, server_version }
    }

    /// The graph handle the handler was built with.
    pub fn graph(&self) -> (g: &G)
        ensures
            *g == self.graph_handle(),
    {
        &self.graph
    }

    /// A single JSON-RPC object or a batch array in; the reply (or the
    /// array of replies) out.
    pub fn handle_jsonrpc(&self, payload: Json) -> (r: Json)
        ensures
            payload is Array ==> match (payload, r) {
                (Json::Array(items), Json::Array(outs)) => batch_ok(items@, outs@, self.version()),
                _ => false,
            },
            !(payload is Array) && payload.field("id"@) is Some ==> reply_ok(payload, r, self.version()),
            !(payload is Array) && payload.field("id"@) is None ==>
                is_error_reply(r, Json::Null, -32600i64, "Invalid Request"@),
    {
        match payload {
            Json::Array(items) => {
                let ghost orig = items@;
                let mut items = items;
                let mut outs: Vec<Json> = Vec::new();
                let mut i: usize = 0;
                assert(orig.take(0) =~= Seq::<Json>::empty());
                while i < items.len()
                    invariant
                        items@.len() == orig.len(),
                        i <= orig.len(),
                        forall|k: int| i <= k < orig.len() ==> items@[k] == orig[k],
                        batch_ok(orig.take(i as int), outs@, self.version()),
                    decreases orig.len() - i,
                {
                    let mut x = Json::Null;
                    std::mem::swap(&mut x, &mut items[i]);
                    assert(x == orig[i as int]);
                    let ghost before = outs@;
                    let reply = self.handle_one(x);
                    match reply {
                        Some(out) => outs.push(out),
                        None => {},
                    }
                    assert(orig.take(i + 1).drop_last() =~= orig.take(i as int));
                    assert(orig.take(i + 1).last() == orig[i as int]);
                    assert(outs@.len() > before.len() ==> outs@.drop_last() =~= before);
                    i += 1;
                }
                assert(orig.take(orig.len() as int) =~= orig);
                Json::Array(outs)
            },
            other => {
                match self.handle_one(other) {
                    Some(out) => out,
                    None => error_reply(Json::Null, -32600, String::from_str("Invalid Request")),
                }
            },
        }
    }

    /// The reply to one request, or nothing for a notification.
    fn handle_one(&self, request: Json) -> (r: Option<Json>)
        ensures
            request.field("id"@) is None ==> r is None,
            request.field("id"@) is Some ==> match r {
                Some(out) => reply_ok(request, out, self.version()),
                None => false,
            },
    {
        let valid = is_valid_request(&request);
        let method: String = match request.get("method") {
            Some(m) => match m.as_str() {
                Some(s) => s.to_owned(),
                None => String::new(),
            },
            None => String::new(),
        };
        let ghost req = request;
        let id = match request {
            Json::Object(members) => {
                let mut members = members;
                take_member(&mut members, "id")
            },
            _ => None,
        };
        let id = match id {
            Some(id) => id,
            None => return None,
        };
        if !valid {
            return Some(error_reply(id, -32600, String::from_str("Invalid Request")));
        }
        if str_eq(method.as_str(), "initialize") {
            let caps = Json::Object(vec![entry("tools", Json::Object(Vec::new()))]);
            let info = Json::Object(vec![
                entry("name", Json::from_str("openpfe")),
                entry("version", Json::from_str(self.server_version.as_str())),
            ]);
            let result = Json::Object(vec![
                entry("protocolVersion", Json::from_str("2024-11-05")),
                entry("capabilities", caps),
                entry("serverInfo", info),
            ]);
            Some(success_reply(id, result))
        } else if str_eq(method.as_str(), "tools/list") {
            let result = Json::Object(vec![entry("tools", Json::Array(Vec::new()))]);
            Some(success_reply(id, result))
        } else {
            let message = concat("Method not found: ", method.as_str());
            Some(error_reply(id, -32601, message))
        }
    }
}

/// Whether `request` is a JSON-RPC 2.0 request object.
pub fn is_valid_request(request: &Json) -> (r: bool)
    ensures
        r == jsonrpc_valid(*request),
{
    if !request.is_object() {
        return false;
    }
    let version_ok = match request.get("jsonrpc") {
        Some(v) => match v.as_str() {
            Some(s) => str_eq(s, "2.0"),
            None => false,
        },
        None => false,
    };
    let method_ok = match request.get("method") {
        Some(m) => m.is_string(),
        None => false,
    };
    version_ok && method_ok
}

} // verus!
