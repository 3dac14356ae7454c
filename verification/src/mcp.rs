//! The client side of the Model Context Protocol: request ids, replies,
//! pagination, and turning server tools into engine tools.
use vstd::prelude::*;
use vstd::string::*;
use crate::errors::McpError;
use crate::json::{JsonValue, JsonView};
use crate::text::{decimal_text, join2, join3, u64_to_decimal};

verus! {

/// A tool an MCP server offers.
#[derive(Debug)]
pub struct McpTool {
    pub name: String,
    pub description: String,
    pub input_schema: JsonValue,
}

/// Where a tool call goes.
#[derive(Debug)]
pub enum ToolType {
    /// A node of the flow.
    Node { target_node_id: String },
    /// A tool of a named MCP server.
    Mcp { server: String, tool_name: String },
}

/// A tool the engine offers to LLM nodes.
#[derive(Debug)]
pub struct ToolDef {
    pub name: String,
    pub description: String,
    pub parameters: JsonValue,
    pub tool_type: ToolType,
    pub metadata: Vec<(String, JsonValue)>,
}

/// The model of a tool's routing.
pub enum ToolTypeView {
    Node { target_node_id: Seq<char> },
    Mcp { server: Seq<char>, tool_name: Seq<char> },
}

/// The model of an engine tool.
pub struct ToolDefView {
    pub name: Seq<char>,
    pub description: Seq<char>,
    pub parameters: JsonView,
    pub tool_type: ToolTypeView,
    pub metadata: Seq<(Seq<char>, JsonView)>,
}

impl View for ToolDef {
    type V = ToolDefView;

    open spec fn view(&self) -> ToolDefView {
        ToolDefView {
            name: self.name@,
            description: self.description@,
            parameters: self.parameters@,
            tool_type: match self.tool_type {
                ToolType::Node { target_node_id } => ToolTypeView::Node {
                    target_node_id: target_node_id@,
                },
                ToolType::Mcp { server, tool_name } => ToolTypeView::Mcp {
                    server: server@,
                    tool_name: tool_name@,
                },
            },
            metadata: self.metadata@.map_values(|e: (String, JsonValue)| (e.0@, e.1@)),
        }
    }
}

/// The engine tool that tool `t` of MCP server `server` becomes.
pub open spec fn mcp_tool_view(server: Seq<char>, t: McpTool) -> ToolDefView {
    ToolDefView {
        name: t.name@,
        description: t.description@,
        parameters: t.input_schema@,
        tool_type: ToolTypeView::Mcp { server, tool_name: t.name@ },
        metadata: Seq::empty(),
    }
}

/// How to reach an MCP server.
#[derive(Debug)]
pub enum McpServerConfig {
    /// A child process spoken to over its standard input and output.
    Stdio { command: String, args: Vec<String>, env: Vec<(String, String)> },
    /// An HTTP endpoint that streams server-sent events.
    Sse { url: String, headers: Vec<(String, String)> },
}

/// The engine tool for tool `tool` of MCP server `server_name`: same name,
/// description and parameter schema, routed to that server's tool, without
/// metadata.
pub fn mcp_tool_to_tool_def(server_name: &str, tool: McpTool) -> (r: ToolDef)
    ensures
        r.name@ == tool.name@,
        r.description@ == tool.description@,
        r.parameters@ == tool.input_schema@,
        r.tool_type matches ToolType::Mcp { server, tool_name } && server@ == server_name@
            && tool_name@ == tool.name@,
        r.metadata@.len() == 0,
        r@ == mcp_tool_view(server_name@, tool),
{
    let name = String::from_str(tool.name.as_str());
    let r = ToolDef {
        name,
        description: tool.description,
        parameters: tool.input_schema,
        tool_type: ToolType::Mcp { server: String::from_str(server_name), tool_name: tool.name },
        metadata: Vec::new(),
    };
    assert(r.metadata@.map_values(|e: (String, JsonValue)| (e.0@, e.1@)) =~= Seq::<
        (Seq<char>, JsonView),
    >::empty());
    r
}

/// The engine tools for the tools server `server_name` listed, in the
/// order it listed them.
pub fn discover_tools_from(server_name: &str, tools: Vec<McpTool>) -> (r: Vec<ToolDef>)
    ensures
        r@.len() == tools@.len(),
        forall|i: int| 0 <= i < r@.len() ==> #[trigger] r@[i]@ == mcp_tool_view(server_name@, tools@[i]),
{
    let ghost all = tools@;
    let mut rest = tools;
    let mut out: Vec<ToolDef> = Vec::new();
    while rest.len() > 0
        invariant
            out@.len() + rest@.len() == all.len(),
            rest@ == all.skip(out@.len() as int),
            forall|i: int| 0 <= i < out@.len() ==> #[trigger] out@[i]@ == mcp_tool_view(server_name@, all[i]),
        decreases rest.len(),
    {
        let ghost k = out@.len() as int;
        let t = rest.remove(0);
        assert(all.skip(k)[0] == t);
        assert(rest@ =~= all.skip(k + 1));
        out.push(mcp_tool_to_tool_def(server_name, t));
    }
    out
}

/// The models of a list of tools.
pub open spec fn tool_views(s: Seq<ToolDef>) -> Seq<ToolDefView> {
    s.map_values(|t: ToolDef| t@)
}

/// The tools of every server whose discovery succeeded, server after
/// server; a failed server adds none.
pub open spec fn discovered(results: Seq<Result<Vec<ToolDef>, McpError>>) -> Seq<ToolDefView>
    decreases results.len(),
{
    if results.len() == 0 {
        Seq::empty()
    } else {
        let prev = discovered(results.drop_last());
        match results.last() {
            Ok(tools) => prev + tool_views(tools@),
            Err(_) => prev,
        }
    }
}

/// Gathers what each server's discovery gave: the tools of the servers that
/// answered, in order; a failure is skipped, never fatal.
pub fn collect_discovered(results: Vec<Result<Vec<ToolDef>, McpError>>) -> (r: Vec<ToolDef>)
    ensures
        tool_views(r@) == discovered(results@),
{
    let ghost all = results@;
    let mut rest = results;
    let mut out: Vec<ToolDef> = Vec::new();
    let ghost mut k: int = 0;
    while rest.len() > 0
        invariant
            0 <= k <= all.len(),
            rest@ == all.skip(k),
            tool_views(out@) == discovered(all.take(k)),
        decreases rest.len(),
    {
        let res = rest.remove(0);
        assert(all.skip(k)[0] == res);
        assert(rest@ =~= all.skip(k + 1));
        assert(all.take(k + 1).drop_last() =~= all.take(k));
        assert(all.take(k + 1).last() == res);
        match res {
            Ok(tools) => {
                let ghost before = tool_views(out@);
                let ghost tv = tool_views(tools@);
                let mut more = tools;
                let ghost mut j: int = 0;
                while more.len() > 0
                    invariant
                        0 <= j <= tv.len(),
                        tool_views(more@) == tv.skip(j),
                        tool_views(out@) == before + tv.take(j),
                    decreases more.len(),
                {
                    let ghost m0 = more@;
                    assert(tool_views(m0)[0] == m0[0]@);
                    assert(tv.skip(j).len() == m0.len());
                    let t = more.remove(0);
                    let ghost o0 = out@;
                    out.push(t);
                    assert(tool_views(out@) =~= tool_views(o0).push(
                        t@,
                    ));
                    assert(tv.take(j + 1) =~= tv.take(j).push(tv[j]));
                    assert(tool_views(more@) =~= tv.skip(j + 1)) by {
                        assert forall|x: int| 0 <= x < more@.len() implies #[trigger] tool_views(more@)[x] == tv.skip(j + 1)[x] by {
                            assert(more@[x] == m0[x + 1]);
                            assert(tool_views(m0)[x + 1] == m0[x + 1]@);
                            assert(tv.skip(j)[x + 1] == tv.skip(j + 1)[x]);
                        }
                    }
                    proof {
                        j = j + 1;
                    }
                }
                assert(tv.take(j) =~= tv);
            },
            Err(_) => {},
        }
        proof {
            k = k + 1;
        }
    }
    assert(all.take(k) =~= all);
    out
}

/// A JSON-RPC request.
#[derive(Debug)]
pub struct JsonRpcRequest {
    pub jsonrpc: String,
    pub id: u64,
    pub method: String,
    pub params: Option<JsonValue>,
}

/// A JSON-RPC error object.
#[derive(Debug)]
pub struct JsonRpcError {
    pub code: i64,
    pub message: String,
    pub data: Option<JsonValue>,
}

/// A JSON-RPC response.
#[derive(Debug)]
pub struct JsonRpcResponse {
    pub jsonrpc: String,
    pub id: Option<u64>,
    pub result: Option<JsonValue>,
    pub error: Option<JsonRpcError>,
}

/// The protocol state of an MCP client: the id of the next request and
/// whether the initialization handshake is done.
#[derive(Debug)]
pub struct McpClient {
    next_id: u64,
    initialized: bool,
}

/// The model of a request: id, method and parameters.
pub open spec fn request_view(r: JsonRpcRequest) -> (Seq<char>, u64, Seq<char>, Option<JsonView>) {
    (
        r.jsonrpc@,
        r.id,
        r.method@,
        match r.params {
            Some(p) => Some(p@),
            None => None,
        },
    )
}

impl McpClient {
    /// The id the next request gets.
    pub closed spec fn pending_id(&self) -> u64 {
        self.next_id
    }

    /// Whether the handshake is done.
    pub closed spec fn is_initialized(&self) -> bool {
        self.initialized
    }

    /// A client whose first request gets id 1.
    pub fn new() -> (r: McpClient)
        ensures
            r.pending_id() == 1,
            !r.is_initialized(),
    {
        McpClient { next_id: 1, initialized: false }
    }

    /// Takes the next request id; ids count up by one, wrapping around.
    pub fn next_id(&mut self) -> (r: u64)
        ensures
            r == old(self).pending_id(),
            final(self).pending_id() == old(self).pending_id().wrapping_add(1),
            final(self).is_initialized() == old(self).is_initialized(),
    {
        let id = self.next_id;
        self.next_id = self.next_id.wrapping_add(1);
        id
    }

    /// A JSON-RPC 2.0 request for `method` with the next id.
    pub fn request(&mut self, method: &str, params: Option<JsonValue>) -> (r: JsonRpcRequest)
        ensures
            r.jsonrpc@ == "2.0"@,
            r.id == old(self).pending_id(),
            r.method@ == method@,
            request_view(r).3 == match params {
                Some(p) => Some(p@),
                None => None::<JsonView>,
            },
            final(self).pending_id() == old(self).pending_id().wrapping_add(1),
            final(self).is_initialized() == old(self).is_initialized(),
    {
        let id = self.next_id();
        JsonRpcRequest { jsonrpc: String::from_str("2.0"), id, method: String::from_str(method), params }
    }

    /// Records that the handshake is done.
    pub fn mark_initialized(&mut self)
        ensures
            final(self).is_initialized(),
            final(self).pending_id() == old(self).pending_id(),
    {
        self.initialized = true;
    }

    /// Whether the handshake is done.
    pub fn initialized(&self) -> (r: bool)
        ensures
            r == self.is_initialized(),
    {
        self.initialized
    }
}

/// The decimal text of a signed integer.
pub open spec fn signed_decimal(n: i64) -> Seq<char> {
    if n < 0 {
        "-"@ + decimal_text((-(n as int)) as nat)
    } else {
        decimal_text(n as nat)
    }
}

fn i64_to_decimal(n: i64) -> (r: String)
    ensures
        r@ == signed_decimal(n),
{
    if n < 0 {
        let m: u64 = ((-(n + 1)) as u64) + 1;
        assert(m as int == -(n as int));
        let d = u64_to_decimal(m);
        join2("-", d.as_str())
    } else {
        u64_to_decimal(n as u64)
    }
}

/// What a method call's response gives: its error as a protocol error
/// `JSON-RPC error {code}: {message}`, else its result, else a protocol
/// error saying there is neither.
pub fn response_result(resp: JsonRpcResponse) -> (r: Result<JsonValue, McpError>)
    ensures
        match resp.error {
            Some(e) => r matches Err(McpError::Protocol { message }) && message@ == "JSON-RPC error "@
                + signed_decimal(e.code) + ": "@ + e.message@,
            None => match resp.result {
                Some(v) => r matches Ok(x) && x@ == v@,
                None => r matches Err(McpError::Protocol { message }) && message@
                    == "JSON-RPC response has neither result nor error"@,
            },
        },
{
    match resp.error {
        Some(e) => {
            let code = i64_to_decimal(e.code);
            let head = join3("JSON-RPC error ", code.as_str(), ": ");
            Err(McpError::Protocol { message: join2(head.as_str(), e.message.as_str()) })
        },
        None => match resp.result {
            Some(v) => Ok(v),
            None => Err(
                McpError::Protocol {
                    message: String::from_str("JSON-RPC response has neither result nor error"),
                },
            ),
        },
    }
}

/// The cursor of the next page of a tool listing: the page's cursor when
/// it is present and not empty; otherwise the listing is complete.
pub fn next_page_cursor(next_cursor: Option<String>) -> (r: Option<String>)
    ensures
        match next_cursor {
            Some(c) => if c@.len() > 0 {
                r matches Some(x) && x@ == c@
            } else {
                r is None
            },
            None => r is None,
        },
{
    match next_cursor {
        Some(c) => if c.as_str().is_empty() {
            None
        } else {
            Some(c)
        },
        None => None,
    }
}

/// The parameters of a `tools/list` request: `{"cursor": c}` when a cursor
/// continues the listing, none for the first page.
pub fn tools_list_params(cursor: &Option<String>) -> (r: Option<JsonValue>)
    ensures
        match cursor {
            Some(c) => r matches Some(v) && v@ == JsonView::Object(seq![("cursor"@, JsonView::Str(c@))]),
            None => r is None,
        },
{
    broadcast use crate::json::group_json_view;

    match cursor {
        Some(c) => {
            let mut entries: Vec<(String, JsonValue)> = Vec::new();
            entries.push(("cursor".to_string(), JsonValue::Str(c.clone())));
            proof {
                crate::json::lemma_json_entries_view(entries@);
                crate::json::lemma_json_entries_view_index(entries@, 0);
                assert(crate::json::json_entries_view(entries@) =~= seq![("cursor"@, JsonView::Str(c@))]);
            }
            Some(JsonValue::Object(entries))
        },
        None => None,
    }
}

/// The names of a list of tools.
pub open spec fn tool_names(s: Seq<McpTool>) -> Seq<Seq<char>> {
    s.map_values(|t: McpTool| t.name@)
}

/// Takes in one page of a tool listing: its tools join the ones listed so
/// far, in order, and the result is the cursor of the next page, or `None`
/// when the listing is complete (see `next_page_cursor`).
pub fn add_tools_page(all: &mut Vec<McpTool>, page: Vec<McpTool>, next_cursor: Option<String>) -> (r: Option<String>)
    ensures
        tool_names(final(all)@) == tool_names(old(all)@) + tool_names(page@),
        final(all)@ == old(all)@ + page@,
        match next_cursor {
            Some(c) => if c@.len() > 0 {
                r matches Some(x) && x@ == c@
            } else {
                r is None
            },
            None => r is None,
        },
{
    let mut page = page;
    let ghost a0 = all@;
    let ghost p0 = page@;
    all.append(&mut page);
    assert(all@ =~= a0 + p0);
    assert(tool_names(all@) =~= tool_names(a0) + tool_names(p0));
    next_page_cursor(next_cursor)
}

/// A named MCP server. It connects on first use; what is held here is its
/// name and how to reach it.
pub struct McpServer {
    pub name: String,
    pub config: McpServerConfig,
}

impl McpServer {
    /// The server `name`, reached as `config` says.
    pub fn new(name: String, config: McpServerConfig) -> (r: McpServer)
        ensures
            r.name@ == name@,
            r.config == config,
    {
        McpServer { name, config }
    }

    /// The server's registered name.
    pub fn name(&self) -> (r: &str)
        ensures
            r@ == self.name@,
    {
        self.name.as_str()
    }
}

/// The MCP servers registered by name, the last registration of a name
/// winning. Each server connects lazily on first use; the registry holds
/// how to reach it.
pub struct McpServerRegistry {
    servers: Vec<McpServer>,
}

impl McpServerRegistry {
    /// The names registered, each once.
    pub closed spec fn names(&self) -> Set<Seq<char>> {
        Set::new(|n: Seq<char>| exists|i: int| 0 <= i < self.servers@.len() && self.servers@[i].name@ == n)
    }

    /// The registry's invariant: no name twice.
    pub closed spec fn wf(&self) -> bool {
        forall|i: int, j: int|
            0 <= i < j < self.servers@.len() ==> self.servers@[i].name@ != self.servers@[j].name@
    }

    /// The configuration registered under `name`; meaningful for a
    /// registered name.
    pub closed spec fn config_of(&self, name: Seq<char>) -> McpServerConfig {
        self.servers@[choose|i: int| 0 <= i < self.servers@.len() && self.servers@[i].name@ == name].config
    }

    /// An empty registry.
    pub fn new() -> (r: McpServerRegistry)
        ensures
            r.wf(),
            r.names() == Set::<Seq<char>>::empty(),
    {
        let r = McpServerRegistry { servers: Vec::new() };
        assert(r.names() =~= Set::<Seq<char>>::empty());
        r
    }

    fn position(&self, name: &str) -> (r: Option<usize>)
        ensures
            match r {
                Some(i) => i < self.servers@.len() && self.servers@[i as int].name@ == name@,
                None => forall|i: int| 0 <= i < self.servers@.len() ==> #[trigger] self.servers@[i].name@ != name@,
            },
    {
        let mut i: usize = 0;
        while i < self.servers.len()
            invariant
                i <= self.servers@.len(),
                forall|j: int| 0 <= j < i ==> #[trigger] self.servers@[j].name@ != name@,
            decreases self.servers.len() - i,
        {
            if crate::text::str_eq(self.servers[i].name.as_str(), name) {
                return Some(i);
            }
            i += 1;
        }
        None
    }

    /// Registers `config` under `name`, replacing what the name held.
    pub fn register(&mut self, name: String, config: McpServerConfig)
        requires
            old(self).wf(),
        ensures
            final(self).wf(),
            final(self).names() == old(self).names().insert(name@),
            final(self).config_of(name@) == config,
            forall|n: Seq<char>| old(self).names().contains(n) && n != name@ ==> final(self).config_of(n)
                == old(self).config_of(n),
    {
        let ghost old_servers = self.servers@;
        let ghost nv = name@;
        let ghost cv = config;
        match self.position(name.as_str()) {
            Some(i) => {
                self.servers.set(i, McpServer::new(name, config));
                proof {
                    let s = self.servers@;
                    assert forall|a: int, b: int| 0 <= a < b < s.len() implies s[a].name@ != s[b].name@ by {
                        if a != i {
                            assert(s[a] == old_servers[a]);
                        }
                        if b != i {
                            assert(s[b] == old_servers[b]);
                        }
                    }
                    assert forall|n: Seq<char>| #[trigger] self.names().contains(n) <==> old(self).names().insert(nv).contains(n) by {
                        if self.names().contains(n) {
                            let a = choose|a: int| 0 <= a < s.len() && s[a].name@ == n;
                            if a != i {
                                assert(s[a] == old_servers[a]);
                            }
                        }
                        if old(self).names().contains(n) {
                            let a = choose|a: int| 0 <= a < old_servers.len() && old_servers[a].name@ == n;
                            if a != i {
                                assert(s[a] == old_servers[a]);
                            }
                            assert(s[a].name@ == n);
                        }
                        if n == nv {
                            assert(s[i as int].name@ == n);
                        }
                    }
                    assert(self.names() =~= old(self).names().insert(nv));
                    let w = choose|a: int| 0 <= a < s.len() && s[a].name@ == nv;
                    assert(s[i as int].name@ == nv);
                    assert(w == i);
                    assert forall|n: Seq<char>| old(self).names().contains(n) && n != nv implies self.config_of(n)
                        == old(self).config_of(n) by {
                        let b = choose|b: int| 0 <= b < old_servers.len() && old_servers[b].name@ == n;
                        assert(b != i);
                        assert(s[b] == old_servers[b]);
                        let a = choose|a: int| 0 <= a < s.len() && s[a].name@ == n;
                        if a != b {
                            if a < b {
                                assert(s[a].name@ != s[b].name@);
                            } else {
                                assert(s[b].name@ != s[a].name@);
                            }
                        }
                    }
                }
            },
            None => {
                self.servers.push(McpServer::new(name, config));
                proof {
                    let s = self.servers@;
                    let last = s.len() - 1;
                    assert forall|a: int, b: int| 0 <= a < b < s.len() implies s[a].name@ != s[b].name@ by {
                        assert(s[a] == old_servers[a]);
                        if b < last {
                            assert(s[b] == old_servers[b]);
                        }
                    }
                    assert forall|n: Seq<char>| #[trigger] self.names().contains(n) <==> old(self).names().insert(nv).contains(n) by {
                        if self.names().contains(n) {
                            let a = choose|a: int| 0 <= a < s.len() && s[a].name@ == n;
                            if a < last {
                                assert(s[a] == old_servers[a]);
                            }
                        }
                        if old(self).names().contains(n) {
                            let a = choose|a: int| 0 <= a < old_servers.len() && old_servers[a].name@ == n;
                            assert(s[a] == old_servers[a]);
                        }
                        if n == nv {
                            assert(s[last].name@ == n);
                        }
                    }
                    assert(self.names() =~= old(self).names().insert(nv));
                    let w = choose|a: int| 0 <= a < s.len() && s[a].name@ == nv;
                    assert(s[last].name@ == nv);
                    if w != last {
                        assert(s[w] == old_servers[w]);
                    }
                    assert forall|n: Seq<char>| old(self).names().contains(n) && n != nv implies self.config_of(n)
                        == old(self).config_of(n) by {
                        let b = choose|b: int| 0 <= b < old_servers.len() && old_servers[b].name@ == n;
                        assert(s[b] == old_servers[b]);
                        let a = choose|a: int| 0 <= a < s.len() && s[a].name@ == n;
                        if a != b {
                            if a < b {
                                assert(s[a].name@ != s[b].name@);
                            } else {
                                assert(s[b].name@ != s[a].name@);
                            }
                        }
                    }
                }
            },
        }
    }

    /// The server registered under `name`, if any.
    pub fn get(&self, name: &str) -> (r: Option<&McpServer>)
        requires
            self.wf(),
        ensures
            match r {
                Some(c) => self.names().contains(name@) && c.name@ == name@ && c.config
                    == self.config_of(name@),
                None => !self.names().contains(name@),
            },
    {
        match self.position(name) {
            Some(i) => {
                proof {
                    let s = self.servers@;
                    let w = choose|a: int| 0 <= a < s.len() && s[a].name@ == name@;
                    assert(s[i as int].name@ == name@);
                }
                Some(&self.servers[i])
            },
            None => None,
        }
    }

    /// Whether no server is registered.
    pub fn is_empty(&self) -> (r: bool)
        ensures
            r == (self.names() == Set::<Seq<char>>::empty()),
    {
        if self.servers.len() == 0 {
            assert(self.names() =~= Set::<Seq<char>>::empty());
            true
        } else {
            assert(self.names().contains(self.servers@[0].name@));
            false
        }
    }
}

} // verus!
