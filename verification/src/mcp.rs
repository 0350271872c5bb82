use vstd::prelude::*;

use crate::numtext::chars_of;

verus! {

#[derive(Debug)]
pub enum McpError {
    Io(String),
    Protocol(String),
}

/// A tool that the server offers to agents.
#[derive(Debug)]
pub struct ToolDefinition {
    pub name: String,
    pub description: String,
}

/// The tool definitions that the server lists. The server runs one tool,
/// "ping" (see `McpServer::execute_tool`), and lists no definition of its own.
pub fn builtin_tools() -> (r: Vec<ToolDefinition>)
    ensures
        r@.len() == 0,
{
    Vec::new()
}

/// What the server answers a tool call.
#[derive(Debug)]
pub enum ToolReply {
    /// `"result": "pong"`
    Pong,
    /// `"error": {"code": -32602, "message": ...}`
    UnknownTool(String),
}

/// What the server answers a request.
#[derive(Debug)]
pub enum McpReply {
    /// `"result": "pong"`, with the request's id.
    Pong,
    /// `"result": {"tools": ...}` listing the server's tools, with the
    /// request's id.
    ToolList,
    /// What the called tool answered, with the request's id.
    Tool(ToolReply),
    /// `"error": {"code": -32601, "message": ...}`, with the request's id.
    MethodNotFound(String),
}

/// The JSON-RPC error code for an unknown method.
pub const METHOD_NOT_FOUND: i64 = -32601;

/// The JSON-RPC error code for an unknown tool.
pub const UNKNOWN_TOOL: i64 = -32602;

fn same_text(a: &str, b: &str) -> (r: bool)
    ensures
        r == (a@ == b@),
{
    let x = chars_of(a);
    let y = chars_of(b);
    if x.len() != y.len() {
        return false;
    }
    let n = x.len();
    for i in 0..n
        invariant
            n == x@.len(),
            n == y@.len(),
            x@ == a@,
            y@ == b@,
            forall|j: int| 0 <= j < i ==> x@[j] == y@[j],
    {
        if x[i] != y[i] {
            assert(x@[i as int] != y@[i as int]);
            return false;
        }
    }
    assert(x@ =~= y@);
    true
}

fn concat(a: &str, b: &str) -> (r: String)
    ensures
        r@ == a@ + b@,
{
    let mut r = String::from_str(a);
    r.append(b);
    r
}

/// Serves the editor's tools to agents over JSON-RPC: it decides how each
/// request is answered.
pub struct McpServer {
    pub tools: Vec<ToolDefinition>,
}

impl McpServer {
    pub fn new() -> (r: Self)
        ensures
            r.tools@.len() == 0,
    {
        McpServer { tools: builtin_tools() }
    }

    /// Runs the tool `name`: "ping" answers "pong", any other name is an
    /// unknown tool.
    pub fn execute_tool(&self, name: &str) -> (r: ToolReply)
        ensures
            name@ == "ping"@ ==> r is Pong,
            name@ != "ping"@ ==> (r matches ToolReply::UnknownTool(m) && m@ == "Unknown tool: "@ + name@),
    {
        if same_text(name, "ping") {
            ToolReply::Pong
        } else {
            ToolReply::UnknownTool(concat("Unknown tool: ", name))
        }
    }

    /// How a request for `method` is answered; `tool_name` names the tool
    /// that a "tools/call" request calls.
    pub fn reply(&self, method: &str, tool_name: &str) -> (r: McpReply)
        ensures
            reply_view(r) == reply_for(method@, tool_name@),
            method@ == "ping"@ ==> r is Pong,
            method@ == "tools/list"@ ==> r is ToolList,
            method@ == "tools/call"@ && tool_name@ == "ping"@ ==> r matches McpReply::Tool(ToolReply::Pong),
            method@ == "tools/call"@ && tool_name@ != "ping"@ ==> (r matches McpReply::Tool(ToolReply::UnknownTool(m))
                && m@ == "Unknown tool: "@ + tool_name@),
            method@ != "ping"@ && method@ != "tools/list"@ && method@ != "tools/call"@ ==> (r matches McpReply::MethodNotFound(m)
                && m@ == "Method not found: "@ + method@),
    {
        proof {
            reveal_strlit("ping");
            reveal_strlit("tools/list");
            reveal_strlit("tools/call");
            assert("ping"@.len() == 4);
            assert("tools/list"@.len() == 10);
            assert("tools/call"@.len() == 10);
            assert("tools/list"@[6] != "tools/call"@[6]);
        }
        if same_text(method, "ping") {
            McpReply::Pong
        } else if same_text(method, "tools/list") {
            McpReply::ToolList
        } else if same_text(method, "tools/call") {
            McpReply::Tool(self.execute_tool(tool_name))
        } else {
            McpReply::MethodNotFound(concat("Method not found: ", method))
        }
    }
}

impl Default for McpServer {
    fn default() -> (r: Self)
        ensures
            r.tools@.len() == 0,
    {
        McpServer::new()
    }
}

/// A reply, its messages as text.
pub enum ReplyView {
    Pong,
    ToolList,
    ToolPong,
    UnknownTool(Seq<char>),
    MethodNotFound(Seq<char>),
}

pub open spec fn reply_view(r: McpReply) -> ReplyView {
    match r {
        McpReply::Pong => ReplyView::Pong,
        McpReply::ToolList => ReplyView::ToolList,
        McpReply::Tool(ToolReply::Pong) => ReplyView::ToolPong,
        McpReply::Tool(ToolReply::UnknownTool(m)) => ReplyView::UnknownTool(m@),
        McpReply::MethodNotFound(m) => ReplyView::MethodNotFound(m@),
    }
}

/// How a request for `method` is answered, `tool` naming the tool that a
/// "tools/call" request calls.
pub open spec fn reply_for(method: Seq<char>, tool: Seq<char>) -> ReplyView {
    if method == "ping"@ {
        ReplyView::Pong
    } else if method == "tools/list"@ {
        ReplyView::ToolList
    } else if method == "tools/call"@ {
        if tool == "ping"@ {
            ReplyView::ToolPong
        } else {
            ReplyView::UnknownTool("Unknown tool: "@ + tool)
        }
    } else {
        ReplyView::MethodNotFound("Method not found: "@ + method)
    }
}

/// What a request holds: its "method", the "name" in its "params", each
/// when it is a string, and its "id" (any JSON value) written as JSON.
#[derive(Debug)]
pub struct RequestFields {
    pub method: Option<String>,
    pub tool_name: Option<String>,
    pub id: Option<String>,
}

pub open spec fn text_of(s: Option<String>) -> Option<Seq<char>> {
    match s {
        Some(t) => Some(t@),
        None => None,
    }
}

/// The method, tool name and id (as JSON text) that `serde_json` reads from
/// a request; where `serde_json::from_str` refuses the text as a `Value`
/// (text that is not one JSON value, or one nested deeper than serde_json's
/// recursion limit), the message of the error it gives.
pub uninterp spec fn request_fields(request: Seq<char>) -> Result<(Option<Seq<char>>, Option<Seq<char>>, Option<Seq<char>>), Seq<char>>;

/// A backslash escape and the character after it.
pub open spec fn escape_pair(c: char) -> Seq<char> {
    seq!['\\', c]
}

/// A hexadecimal digit, in lower case.
pub open spec fn hex_digit(n: int) -> char {
    if n < 10 {
        ('0' as int + n) as char
    } else {
        ('a' as int + n - 10) as char
    }
}

/// How `serde_json` writes `c` inside a JSON string: '"' and '\\' after a
/// backslash; backspace, tab, line feed, form feed and carriage return as
/// `\b`, `\t`, `\n`, `\f`, `\r`; any other character below U+0020 as
/// `\u00` and two lower-case hexadecimal digits; every other character as
/// it is.
pub open spec fn escaped_char(c: char) -> Seq<char> {
    if c == '"' {
        escape_pair('"')
    } else if c == '\\' {
        escape_pair('\\')
    } else if c == '\u{8}' {
        escape_pair('b')
    } else if c == '\t' {
        escape_pair('t')
    } else if c == '\n' {
        escape_pair('n')
    } else if c == '\u{c}' {
        escape_pair('f')
    } else if c == '\r' {
        escape_pair('r')
    } else if (c as int) < 0x20 {
        seq!['\\', 'u', '0', '0', hex_digit(c as int / 16), hex_digit(c as int % 16)]
    } else {
        seq![c]
    }
}

/// The characters of `s`, each written as `escaped_char` writes it.
pub open spec fn escaped_text(s: Seq<char>) -> Seq<char>
    decreases s.len(),
{
    if s.len() == 0 {
        Seq::empty()
    } else {
        escaped_text(s.drop_last()) + escaped_char(s.last())
    }
}

/// The JSON string literal that `serde_json` writes for `s`: the escaped
/// characters between double quotes.
pub open spec fn json_string_text(s: Seq<char>) -> Seq<char> {
    seq!['"'] + escaped_text(s) + seq!['"']
}

/// `serde_json::from_str` into a `serde_json::Value`, then the request's
/// "method" and "params"."name" where they are strings (`Value::get`,
/// `Value::pointer`, `Value::as_str`) and its "id" written back as compact
/// JSON (`Value`'s `Display`); where the parse fails, the error's message
/// (`serde_json::Error`'s `Display`). The contract claims that the result,
/// fields or message, is the one that `request_fields` names for the text.
#[verifier::external_body]
fn read_request(request: &str) -> (r: Result<RequestFields, String>)
    ensures
        r matches Ok(f) ==> (request_fields(request@) matches Ok(g) && g == (
            text_of(f.method),
            text_of(f.tool_name),
            text_of(f.id),
        )),
        r matches Err(m) ==> (request_fields(request@) matches Err(e) && e == m@),
{
    match serde_json::from_str::<serde_json::Value>(request) {
        Ok(v) => Ok(RequestFields {
            method: v.get("method").and_then(serde_json::Value::as_str).map(str::to_string),
            tool_name: v.pointer("/params/name").and_then(serde_json::Value::as_str).map(
                str::to_string,
            ),
            id: v.get("id").map(serde_json::Value::to_string),
        }),
        Err(e) => Err(e.to_string()),
    }
}

/// `serde_json::to_string` of a string: its JSON literal, quoted and
/// escaped. The contract claims that the result is `json_string_text` of
/// the string (serde_json's `format_escaped_str` and its escape table). Writing a string cannot fail; the error arm
/// only tells the outside result's variants apart.
#[verifier::external_body]
fn json_string(s: &str) -> (r: String)
    ensures
        r@ == json_string_text(s@),
{
    match serde_json::to_string(s) {
        Ok(t) => t,
        Err(_) => String::new(),
    }
}

/// The JSON of a tool definition, its keys in order.
pub open spec fn tool_text(t: ToolDefinition) -> Seq<char> {
    "{\"description\":"@ + json_string_text(t.description@) + ",\"name\":"@ + json_string_text(t.name@) + "}"@
}

/// The tool definitions, as the items of a JSON array (without brackets).
pub open spec fn tool_items(tools: Seq<ToolDefinition>) -> Seq<char>
    decreases tools.len(),
{
    if tools.len() == 0 {
        Seq::empty()
    } else if tools.len() == 1 {
        tool_text(tools[0])
    } else {
        tool_items(tools.drop_last()) + ","@ + tool_text(tools.last())
    }
}

pub open spec fn id_json(id: Option<Seq<char>>) -> Seq<char> {
    match id {
        Some(t) => t,
        None => "null"@,
    }
}

/// The JSON-RPC 2.0 response text for `r`, with the request's id (as JSON
/// text) and the tool list `tools` (as JSON text); keys in order, no spaces.
pub open spec fn reply_text(r: ReplyView, id: Seq<char>, tools: Seq<char>) -> Seq<char> {
    match r {
        ReplyView::Pong => "{\"id\":"@ + id + ",\"jsonrpc\":\"2.0\",\"result\":\"pong\"}"@,
        ReplyView::ToolPong => "{\"id\":"@ + id + ",\"jsonrpc\":\"2.0\",\"result\":\"pong\"}"@,
        ReplyView::ToolList => "{\"id\":"@ + id + ",\"jsonrpc\":\"2.0\",\"result\":{\"tools\":"@ + tools
            + "}}"@,
        ReplyView::UnknownTool(m) => "{\"error\":{\"code\":-32602,\"message\":"@ + json_string_text(m)
            + "},\"id\":"@ + id + ",\"jsonrpc\":\"2.0\"}"@,
        ReplyView::MethodNotFound(m) => "{\"error\":{\"code\":-32601,\"message\":"@ + json_string_text(m)
            + "},\"id\":"@ + id + ",\"jsonrpc\":\"2.0\"}"@,
    }
}

/// The response to `request` when it reads as the fields `f`.
pub open spec fn response_for(f: (Option<Seq<char>>, Option<Seq<char>>, Option<Seq<char>>), tools: Seq<ToolDefinition>) -> Seq<char> {
    let method = match f.0 {
        Some(m) => m,
        None => Seq::empty(),
    };
    let tool = match f.1 {
        Some(t) => t,
        None => Seq::empty(),
    };
    reply_text(reply_for(method, tool), id_json(f.2), "["@ + tool_items(tools) + "]"@)
}

impl McpServer {
    fn tools_json(&self) -> (r: String)
        ensures
            r@ == "["@ + tool_items(self.tools@) + "]"@,
    {
        let mut out = String::from_str("[");
        let n = self.tools.len();
        for i in 0..n
            invariant
                n == self.tools@.len(),
                out@ == "["@ + tool_items(self.tools@.take(i as int)),
        {
            let t = &self.tools[i];
            let d = json_string(t.description.as_str());
            let nm = json_string(t.name.as_str());
            let ghost before = out@;
            if i > 0 {
                out.append(",");
            }
            out.append("{\"description\":");
            out.append(d.as_str());
            out.append(",\"name\":");
            out.append(nm.as_str());
            out.append("}");
            proof {
                let ts = self.tools@.take(i + 1);
                assert(ts.drop_last() =~= self.tools@.take(i as int));
                assert(ts.last() == self.tools@[i as int]);
                if i == 0 {
                    assert(ts.len() == 1);
                    assert(ts[0] == self.tools@[0]);
                    assert(before == "["@ + Seq::<char>::empty());
                }
                assert(out@ =~= "["@ + tool_items(ts));
            }
        }
        assert(self.tools@.take(n as int) =~= self.tools@);
        out.append("]");
        out
    }

    /// Answers a JSON-RPC request: the reply that `reply` decides for its
    /// method and tool name ("" where either is missing or not a string),
    /// written as JSON with the request's id (null where it has none) (see
    /// `respond`); a request that `serde_json` does not read as JSON is a
    /// protocol error carrying serde_json's message.
    pub fn handle_request(&self, request: &str) -> (r: Result<String, McpError>)
        ensures
            request_fields(request@) matches Err(m) ==> (r matches Err(McpError::Protocol(e)) && e@ == m),
            request_fields(request@) matches Ok(f) ==> (r matches Ok(t) && t@ == response_for(f, self.tools@)),
    {
        match read_request(request) {
            Ok(fields) => Ok(self.respond(&fields)),
            Err(message) => Err(McpError::Protocol(message)),
        }
    }

    /// The response text to a request that reads as `fields`: the reply
    /// that `reply` decides for its method and tool name ("" where either
    /// is missing), written as JSON-RPC 2.0 with the request's id (null
    /// where it has none), keys in order and no spaces.
    pub fn respond(&self, fields: &RequestFields) -> (r: String)
        ensures
            r@ == response_for(
                (text_of(fields.method), text_of(fields.tool_name), text_of(fields.id)),
                self.tools@,
            ),
    {
        let ghost f = (text_of(fields.method), text_of(fields.tool_name), text_of(fields.id));
        let method = match &fields.method {
            Some(m) => m.as_str(),
            None => "",
        };
        let tool = match &fields.tool_name {
            Some(t) => t.as_str(),
            None => "",
        };
        proof {
            reveal_strlit("");
            reveal_strlit("null");
        }
        let id = match &fields.id {
            Some(i) => i.as_str(),
            None => "null",
        };
        assert(method@ == (match f.0 {
            Some(m) => m,
            None => Seq::<char>::empty(),
        }));
        assert(tool@ == (match f.1 {
            Some(t) => t,
            None => Seq::<char>::empty(),
        }));
        assert(id@ == id_json(f.2));
        let reply = self.reply(method, tool);
        let mut out = String::new();
        match &reply {
            McpReply::Pong | McpReply::Tool(ToolReply::Pong) => {
                out.append("{\"id\":");
                out.append(id);
                out.append(",\"jsonrpc\":\"2.0\",\"result\":\"pong\"}");
            },
            McpReply::ToolList => {
                let tools = self.tools_json();
                out.append("{\"id\":");
                out.append(id);
                out.append(",\"jsonrpc\":\"2.0\",\"result\":{\"tools\":");
                out.append(tools.as_str());
                out.append("}}");
            },
            McpReply::Tool(ToolReply::UnknownTool(m)) => {
                let message = json_string(m.as_str());
                out.append("{\"error\":{\"code\":-32602,\"message\":");
                out.append(message.as_str());
                out.append("},\"id\":");
                out.append(id);
                out.append(",\"jsonrpc\":\"2.0\"}");
            },
            McpReply::MethodNotFound(m) => {
                let message = json_string(m.as_str());
                out.append("{\"error\":{\"code\":-32601,\"message\":");
                out.append(message.as_str());
                out.append("},\"id\":");
                out.append(id);
                out.append(",\"jsonrpc\":\"2.0\"}");
            },
        }
        proof {
            let rv = reply_view(reply);
            assert(out@ =~= reply_text(rv, id@, "["@ + tool_items(self.tools@) + "]"@));
        }
        out
    }
}

} // verus!
