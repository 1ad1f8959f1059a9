//! Tools that a server offers by the Model Context Protocol.
//!
//! [`McpPlugin`] knows the tools of a server: what of a stream is a call of one
//! ([`McpPlugin::route`]), what the server is handed ([`call_arguments`]), and what its reply
//! comes to ([`conclude_call`]). Who calls it speaks to the server.

use crate::error::{error_text, PluginError};
use crate::json::{json_text, lemma_json_view, Json, JsonView};
use crate::string_map::{strictly_sorted, zip_map, StringMap};
use crate::text::{debug_text, decimal, decimal_text, quote};
use crate::types::{copy_texts, optional_text, texts, BlockView, MessageContentBlock};
use vstd::prelude::*;
use vstd::string::*;

verus! {

/// The plugin's name.
pub const NAME: &'static str = "mcp-connector";

/// The way to a server.
#[derive(Debug, PartialEq, Eq)]
pub enum McpTransport {
    /// A process that speaks over its standard streams.
    Stdio {
        /// The executable.
        command: String,
        /// Its arguments.
        args: Vec<String>,
    },
    /// A WebSocket.
    WebSocket {
        /// The address.
        url: String,
    },
    /// Streamable HTTP.
    StreamableHttp {
        /// The address.
        url: String,
    },
}

/// What a [`McpTransport`] is.
pub enum TransportView {
    Stdio { command: Seq<char>, args: Seq<Seq<char>> },
    WebSocket { url: Seq<char> },
    StreamableHttp { url: Seq<char> },
}

impl View for McpTransport {
    type V = TransportView;

    open spec fn view(&self) -> TransportView {
        match *self {
            McpTransport::Stdio { command, args } => TransportView::Stdio {
                command: command@,
                args: texts(args@),
            },
            McpTransport::WebSocket { url } => TransportView::WebSocket { url: url@ },
            McpTransport::StreamableHttp { url } => TransportView::StreamableHttp { url: url@ },
        }
    }
}

impl Clone for McpTransport {
    fn clone(&self) -> (r: McpTransport)
        ensures
            r@ == self@,
    {
        match self {
            McpTransport::Stdio { command, args } => McpTransport::Stdio {
                command: command.clone(),
                args: copy_texts(args),
            },
            McpTransport::WebSocket { url } => McpTransport::WebSocket { url: url.clone() },
            McpTransport::StreamableHttp { url } => McpTransport::StreamableHttp {
                url: url.clone(),
            },
        }
    }
}

/// The refusal of a WebSocket.
pub open spec fn websocket_message(url: Seq<char>) -> Seq<char> {
    "WebSocket MCP transport is not implemented by rmcp 3.x; use Stdio or StreamableHttp (requested "@
        + debug_text(url) + ")"@
}

impl McpTransport {
    /// A process without arguments.
    pub fn stdio(command: String) -> (r: McpTransport)
        ensures
            r@ == (TransportView::Stdio { command: command@, args: Seq::empty() }),
    {
        let r = McpTransport::Stdio { command, args: Vec::new() };
        assert(texts(r->args@) =~= Seq::<Seq<char>>::empty());
        r
    }

    /// Refuses a way for which there is no client.
    pub fn check(&self) -> (r: Result<(), PluginError>)
        ensures
            match self@ {
                TransportView::WebSocket { url } => r matches Err(PluginError::NotSupported(m))
                    && m@ == websocket_message(url),
                _ => r is Ok,
            },
    {
        match self {
            McpTransport::WebSocket { url } => Err(
                PluginError::NotSupported(
                    "WebSocket MCP transport is not implemented by rmcp 3.x; use Stdio or StreamableHttp (requested ".to_owned().concat(
                        quote(url.as_str()).as_str(),
                    ).concat(")"),
                ),
            ),
            _ => Ok(()),
        }
    }
}

/// A tool of a server.
#[derive(Debug, PartialEq)]
pub struct McpTool {
    /// Its name.
    pub name: String,
    /// What it does.
    pub description: Option<String>,
    /// The JSON Schema of its arguments.
    pub input_schema: Json,
    /// What it is called before users.
    pub title: Option<String>,
    /// The JSON Schema of what it returns.
    pub output_schema: Option<Json>,
    /// Hints on what it does.
    pub annotations: Option<Json>,
    /// Its icons.
    pub icons: Option<Json>,
    /// What else the server says of it.
    pub meta: Option<Json>,
}

/// What a [`McpTool`] is.
pub struct McpToolView {
    pub name: Seq<char>,
    pub description: Option<Seq<char>>,
    pub input_schema: JsonView,
    pub title: Option<Seq<char>>,
    pub output_schema: Option<JsonView>,
    pub annotations: Option<JsonView>,
    pub icons: Option<JsonView>,
    pub meta: Option<JsonView>,
}

/// The view of a value, where there is one.
pub open spec fn optional_json(value: Option<Json>) -> Option<JsonView> {
    match value {
        Some(v) => Some(v@),
        None => None,
    }
}

/// The same value again, where there is one.
fn copy_optional(value: &Option<Json>) -> (r: Option<Json>)
    ensures
        optional_json(r) == optional_json(*value),
{
    match value {
        Some(v) => Some(v.copy()),
        None => None,
    }
}

impl View for McpTool {
    type V = McpToolView;

    open spec fn view(&self) -> McpToolView {
        McpToolView {
            name: self.name@,
            description: optional_text(self.description),
            input_schema: self.input_schema@,
            title: optional_text(self.title),
            output_schema: optional_json(self.output_schema),
            annotations: optional_json(self.annotations),
            icons: optional_json(self.icons),
            meta: optional_json(self.meta),
        }
    }
}

impl Clone for McpTool {
    fn clone(&self) -> (r: McpTool)
        ensures
            r@ == self@,
    {
        McpTool {
            name: self.name.clone(),
            description: match &self.description {
                Some(text) => Some(text.clone()),
                None => None,
            },
            input_schema: self.input_schema.copy(),
            title: match &self.title {
                Some(text) => Some(text.clone()),
                None => None,
            },
            output_schema: copy_optional(&self.output_schema),
            annotations: copy_optional(&self.annotations),
            icons: copy_optional(&self.icons),
            meta: copy_optional(&self.meta),
        }
    }
}

/// What tools are.
pub open spec fn tool_texts(v: Seq<McpTool>) -> Seq<McpToolView> {
    Seq::new(v.len(), |i: int| v[i]@)
}

/// Tools by name; of two with one name the later one counts.
pub open spec fn tools_by_name(tools: Seq<McpToolView>) -> Map<Seq<char>, McpToolView>
    decreases tools.len(),
{
    if tools.len() == 0 {
        Map::empty()
    } else {
        tools_by_name(tools.drop_last()).insert(tools.last().name, tools.last())
    }
}

/// The views of a registry.
pub open spec fn registry_view(m: Map<Seq<char>, McpTool>) -> Map<Seq<char>, McpToolView> {
    Map::new(|k: Seq<char>| m.dom().contains(k), |k: Seq<char>| m[k]@)
}

/// Each tool is found by its own name.
pub open spec fn is_registry(m: Map<Seq<char>, McpTool>) -> bool {
    forall|k: Seq<char>| #[trigger] m.dom().contains(k) ==> m[k].name@ == k
}

/// The names of tools.
pub open spec fn tool_names(tools: Seq<McpToolView>) -> Seq<Seq<char>> {
    Seq::new(tools.len(), |i: int| tools[i].name)
}

/// The kind of a JSON value.
pub open spec fn kind_of(value: JsonView) -> Seq<char> {
    match value {
        JsonView::Null => "null"@,
        JsonView::Bool(_) => "boolean"@,
        JsonView::Number(_) => "number"@,
        JsonView::String(_) => "string"@,
        JsonView::Array(_) => "array"@,
        JsonView::Object(_) => "object"@,
    }
}

/// The kind of a JSON value.
pub fn json_kind(value: &Json) -> (r: &'static str)
    ensures
        r@ == kind_of(value@),
{
    broadcast use lemma_json_view;

    match value {
        Json::Null => "null",
        Json::Bool(_) => "boolean",
        Json::Number(_) => "number",
        Json::String(_) => "string",
        Json::Array(_) => "array",
        Json::Object(_) => "object",
    }
}

/// Whether a call hands the server arguments: an object is handed on, `null` means that there
/// are none, and any other value is refused.
pub fn call_arguments(arguments: &Json) -> (r: Result<bool, PluginError>)
    ensures
        match arguments@ {
            JsonView::Object(_) => r == Ok::<bool, PluginError>(true),
            JsonView::Null => r == Ok::<bool, PluginError>(false),
            other => r matches Err(PluginError::Validation { schema, message }) && schema@
                == "tools/call arguments"@ && message@ == "tool arguments must be a JSON object, got "@
                + kind_of(other),
        },
{
    broadcast use lemma_json_view;

    match arguments {
        Json::Object(_) => Ok(true),
        Json::Null => Ok(false),
        _ => Err(
            PluginError::Validation {
                schema: "tools/call arguments".to_owned(),
                message: "tool arguments must be a JSON object, got ".to_owned().concat(
                    json_kind(arguments),
                ),
            },
        ),
    }
}

/// A piece of what a tool returned.
#[derive(Debug, PartialEq)]
pub enum ToolContent {
    /// Text.
    Text(String),
    /// An image.
    Image {
        /// The MIME type.
        mime_type: String,
        /// How long its base64 is.
        base64_len: usize,
    },
    /// A sound.
    Audio {
        /// The MIME type.
        mime_type: String,
        /// How long its base64 is.
        base64_len: usize,
    },
    /// A resource.
    Resource,
    /// A link to a resource.
    ResourceLink,
    /// Anything else.
    Other,
}

/// The text of a piece: text as it is, anything else by a short word for it.
pub open spec fn content_text(c: ToolContent) -> Seq<char> {
    match c {
        ToolContent::Text(text) => text@,
        ToolContent::Image { mime_type, base64_len } => "[image: "@ + mime_type@ + " ("@ + decimal(
            base64_len as nat,
        ) + " base64 chars)]"@,
        ToolContent::Audio { mime_type, base64_len } => "[audio: "@ + mime_type@ + " ("@ + decimal(
            base64_len as nat,
        ) + " base64 chars)]"@,
        ToolContent::Resource => "[resource content]"@,
        ToolContent::ResourceLink => "[resource link]"@,
        ToolContent::Other => "[content block]"@,
    }
}

/// The text of a piece.
fn piece_text(c: &ToolContent) -> (r: String)
    ensures
        r@ == content_text(*c),
{
    match c {
        ToolContent::Text(text) => text.clone(),
        ToolContent::Image { mime_type, base64_len } => "[image: ".to_owned().concat(
            mime_type.as_str(),
        ).concat(" (").concat(decimal_text(*base64_len as u128).as_str()).concat(
            " base64 chars)]",
        ),
        ToolContent::Audio { mime_type, base64_len } => "[audio: ".to_owned().concat(
            mime_type.as_str(),
        ).concat(" (").concat(decimal_text(*base64_len as u128).as_str()).concat(
            " base64 chars)]",
        ),
        ToolContent::Resource => "[resource content]".to_owned(),
        ToolContent::ResourceLink => "[resource link]".to_owned(),
        ToolContent::Other => "[content block]".to_owned(),
    }
}

/// The texts of pieces, one to a line.
pub open spec fn content_lines(content: Seq<ToolContent>) -> Seq<char>
    decreases content.len(),
{
    if content.len() == 0 {
        Seq::empty()
    } else if content.len() == 1 {
        content_text(content[0])
    } else {
        content_lines(content.drop_last()) + "\n"@ + content_text(content.last())
    }
}

/// What a tool returned.
#[derive(Debug, PartialEq)]
pub struct ToolResult {
    /// The pieces.
    pub content: Vec<ToolContent>,
    /// A value in place of pieces.
    pub structured_content: Option<Json>,
    /// Whether it is an error.
    pub is_error: Option<bool>,
}

/// The text of what a tool returned.
pub open spec fn result_text(result: ToolResult) -> Seq<char> {
    let text = if result.content@.len() == 0 {
        match result.structured_content {
            Some(value) => json_text(value@),
            None => Seq::empty(),
        }
    } else {
        content_lines(result.content@)
    };
    if result.is_error == Some(true) {
        "tool error: "@ + text
    } else {
        text
    }
}

/// The text of what a tool returned: the pieces one to a line, or the value where there are no
/// pieces; an error says so first.
pub fn render_tool_result(result: &ToolResult) -> (r: String)
    ensures
        r@ == result_text(*result),
{
    let mut text = String::new();
    let ghost all = result.content@;
    let mut i: usize = 0;
    assert(all.take(0) =~= Seq::<ToolContent>::empty());
    while i < result.content.len()
        invariant
            i <= result.content@.len(),
            all == result.content@,
            text@ == content_lines(all.take(i as int)),
        decreases result.content@.len() - i,
    {
        proof {
            assert(all.take(i + 1).drop_last() =~= all.take(i as int));
            assert(all.take(i + 1).last() == all[i as int]);
        }
        let piece = piece_text(&result.content[i]);
        if i == 0 {
            text = piece;
        } else {
            text = text.concat("\n").concat(piece.as_str());
        }
        i = i + 1;
    }
    assert(all.take(i as int) =~= all);
    if result.content.len() == 0 {
        if let Some(value) = &result.structured_content {
            text = value.to_text();
        }
    }
    match result.is_error {
        Some(true) => "tool error: ".to_owned().concat(text.as_str()),
        _ => text,
    }
}

/// What a server replied to a call.
#[derive(Debug, PartialEq)]
pub enum ToolReply {
    /// The tool is done.
    Complete(ToolResult),
    /// The tool wants more to go on: so many things.
    InputRequired(usize),
    /// The tool goes on elsewhere.
    Task,
    /// Something else.
    Unrecognized,
    /// The call failed, with this text.
    Failed(String),
}

/// The refusal of a reply that wants more to go on.
pub open spec fn input_message(tool: Seq<char>, requests: nat) -> Seq<char> {
    "tool \""@ + tool + "\" requires interactive input (MCP resultType \"input_required\", "@
        + decimal(requests)
        + " input request(s)) but the mcp-connector has no elicitation UI, so the multi round-trip request cannot be fulfilled"@
}

/// The refusal of a reply that goes on elsewhere.
pub open spec fn task_message(tool: Seq<char>) -> Seq<char> {
    "tool \""@ + tool
        + "\" returned a task (MCP SEP-2663 resultType \"task\") which the mcp-connector does not poll"@
}

/// What the reply to a call comes to. A reply that is not the end of the call is an error, not
/// a result.
pub fn conclude_call(tool: &str, reply: &ToolReply) -> (r: Result<String, PluginError>)
    ensures
        match *reply {
            ToolReply::Complete(result) => r matches Ok(text) && text@ == result_text(result),
            ToolReply::InputRequired(n) => r matches Err(PluginError::NotSupported(m)) && m@
                == input_message(tool@, n as nat),
            ToolReply::Task => r matches Err(PluginError::NotSupported(m)) && m@ == task_message(
                tool@,
            ),
            ToolReply::Unrecognized => r matches Err(PluginError::Internal(m)) && m@
                == "mcp tool call returned an unrecognized response"@,
            ToolReply::Failed(text) => r matches Err(PluginError::Internal(m)) && m@
                == "mcp tool call failed: "@ + text@,
        },
{
    match reply {
        ToolReply::Complete(result) => Ok(render_tool_result(result)),
        ToolReply::InputRequired(n) => Err(
            PluginError::NotSupported(
                "tool \"".to_owned().concat(tool).concat(
                    "\" requires interactive input (MCP resultType \"input_required\", ",
                ).concat(decimal_text(*n as u128).as_str()).concat(
                    " input request(s)) but the mcp-connector has no elicitation UI, so the multi round-trip request cannot be fulfilled",
                ),
            ),
        ),
        ToolReply::Task => Err(
            PluginError::NotSupported(
                "tool \"".to_owned().concat(tool).concat(
                    "\" returned a task (MCP SEP-2663 resultType \"task\") which the mcp-connector does not poll",
                ),
            ),
        ),
        ToolReply::Unrecognized => Err(
            PluginError::Internal("mcp tool call returned an unrecognized response".to_owned()),
        ),
        ToolReply::Failed(text) => Err(
            PluginError::Internal("mcp tool call failed: ".to_owned().concat(text.as_str())),
        ),
    }
}

/// What went wrong on the way to a server.
#[derive(Debug, PartialEq)]
pub enum LinkFault {
    /// The process could not be started.
    Process(String),
    /// The thread that speaks to the server could not be started.
    Thread(String),
    /// The runtime on that thread could not be made.
    Runtime(String),
    /// The server did not say what it is.
    Discovery(String),
    /// The server did not list its tools.
    ToolList(String),
    /// The thread ended before the tools were listed.
    SetupCutShort,
    /// The thread has ended.
    Ended,
    /// The thread ended before it answered.
    ReplyDropped,
    /// The wait for an answer was cut short.
    WaitFailed,
}

/// The error for a fault.
pub open spec fn is_link_error(e: PluginError, fault: LinkFault) -> bool {
    match fault {
        LinkFault::Process(text) => e matches PluginError::Io(m) && m@ == text@,
        LinkFault::Thread(text) => e matches PluginError::Io(m) && m@
            == "failed to spawn mcp worker thread: "@ + text@,
        LinkFault::Runtime(text) => e matches PluginError::Internal(m) && m@
            == "failed to build worker runtime: "@ + text@,
        LinkFault::Discovery(text) => e matches PluginError::Internal(m) && m@
            == "mcp discovery failed: "@ + text@,
        LinkFault::ToolList(text) => e matches PluginError::Internal(m) && m@
            == "mcp tools/list failed: "@ + text@,
        LinkFault::SetupCutShort => e matches PluginError::Internal(m) && m@
            == "mcp worker thread exited before completing the connection setup"@,
        LinkFault::Ended => e matches PluginError::Internal(m) && m@ == "mcp worker task exited"@,
        LinkFault::ReplyDropped => e matches PluginError::Internal(m) && m@
            == "mcp worker dropped the reply channel"@,
        LinkFault::WaitFailed => e matches PluginError::Internal(m) && m@
            == "mcp reply wait task failed"@,
    }
}

impl LinkFault {
    /// The error for the fault.
    pub fn into_error(self) -> (r: PluginError)
        ensures
            is_link_error(r, self),
    {
        match self {
            LinkFault::Process(text) => PluginError::Io(text),
            LinkFault::Thread(text) => PluginError::Io(
                "failed to spawn mcp worker thread: ".to_owned().concat(text.as_str()),
            ),
            LinkFault::Runtime(text) => PluginError::Internal(
                "failed to build worker runtime: ".to_owned().concat(text.as_str()),
            ),
            LinkFault::Discovery(text) => PluginError::Internal(
                "mcp discovery failed: ".to_owned().concat(text.as_str()),
            ),
            LinkFault::ToolList(text) => PluginError::Internal(
                "mcp tools/list failed: ".to_owned().concat(text.as_str()),
            ),
            LinkFault::SetupCutShort => PluginError::Internal(
                "mcp worker thread exited before completing the connection setup".to_owned(),
            ),
            LinkFault::Ended => PluginError::Internal("mcp worker task exited".to_owned()),
            LinkFault::ReplyDropped => PluginError::Internal(
                "mcp worker dropped the reply channel".to_owned(),
            ),
            LinkFault::WaitFailed => PluginError::Internal(
                "mcp reply wait task failed".to_owned(),
            ),
        }
    }
}

/// A call of a tool of the server.
#[derive(Debug, PartialEq)]
pub struct McpCall {
    /// The call.
    pub tool_call_id: String,
    /// The tool.
    pub name: String,
    /// The arguments.
    pub arguments: Json,
}

/// The id, the tool and the arguments of the call in a block, where the tool is known.
pub open spec fn routed(tools: Map<Seq<char>, McpToolView>, block: BlockView) -> Option<
    (Seq<char>, Seq<char>, JsonView),
> {
    match block {
        BlockView::ToolCall { id, name, arguments } => if tools.dom().contains(name) {
            Some((id, name, arguments))
        } else {
            None
        },
        _ => None,
    }
}

/// The block that answers a call.
pub open spec fn answered(id: Seq<char>, output: Seq<char>) -> BlockView {
    BlockView::ToolResult { tool_call_id: id, output }
}

/// The tools of a server.
pub struct McpPlugin {
    tools: StringMap<McpTool>,
}

impl View for McpPlugin {
    type V = Map<Seq<char>, McpToolView>;

    closed spec fn view(&self) -> Map<Seq<char>, McpToolView> {
        registry_view(self.tools@)
    }
}

impl McpPlugin {
    /// Each tool is found by its own name.
    #[verifier::type_invariant]
    spec fn named(&self) -> bool {
        is_registry(self.tools@)
    }

    /// The tools that a server lists.
    pub fn new(tools: Vec<McpTool>) -> (r: McpPlugin)
        ensures
            r@ == tools_by_name(tool_texts(tools@)),
    {
        let ghost all = tool_texts(tools@);
        let mut registry: StringMap<McpTool> = StringMap::new();
        assert(all.take(0) =~= Seq::<McpToolView>::empty());
        assert(registry_view(registry@) =~= tools_by_name(all.take(0)));
        for tool in it: tools
            invariant
                it.seq() == tools@,
                all == tool_texts(tools@),
                is_registry(registry@),
                registry_view(registry@) == tools_by_name(all.take(it.index() as int)),
        {
            let ghost i = it.index() as int;
            let ghost before = registry@;
            proof {
                assert(all.take(i + 1).drop_last() =~= all.take(i));
                assert(all.take(i + 1).last() == tool@);
            }
            let name = tool.name.clone();
            let ghost t = tool;
            registry.insert(name, tool);
            assert(registry_view(registry@) =~= registry_view(before).insert(t@.name, t@));
        }
        assert(all.take(all.len() as int) =~= all);
        McpPlugin { tools: registry }
    }

    /// The plugin's name.
    pub fn name(&self) -> (r: &'static str)
        ensures
            r@ == NAME@,
    {
        NAME
    }

    /// The tools, in the order of their names.
    pub fn tools(&self) -> (r: Vec<McpTool>)
        ensures
            strictly_sorted(tool_names(tool_texts(r@))),
            zip_map(tool_names(tool_texts(r@)), tool_texts(r@)) == self@,
    {
        proof {
            use_type_invariant(self);
            use_type_invariant(&self.tools);
        }
        let ghost keys = self.tools.keys();
        let mut r: Vec<McpTool> = Vec::new();
        let mut i: usize = 0;
        while i < self.tools.len()
            invariant
                i <= self.tools.keys().len(),
                keys == self.tools.keys(),
                self.tools.ordered(),
                is_registry(self.tools@),
                r@.len() == i,
                forall|k: int|
                    0 <= k < i ==> (#[trigger] r@[k])@ == self.tools@[keys[k]]@ && r@[k]@.name
                        == keys[k],
            decreases self.tools.keys().len() - i,
        {
            proof {
                StringMap::lemma_view_at(self.tools, i as int);
            }
            r.push(self.tools.value_at(i).clone());
            i = i + 1;
        }
        proof {
            let tools = tool_texts(r@);
            assert(tool_names(tools) =~= keys);
            assert forall|k: Seq<char>| keys.contains(k) implies tools[keys.index_of(k)]
                == self@[k] && self@.dom().contains(k) by {
                let at = keys.index_of(k);
                assert(keys[at] == k);
                StringMap::lemma_view_at(self.tools, at);
                assert(tools[at] == r@[at]@);
            }
            StringMap::lemma_view_len(self.tools);
            assert(zip_map(keys, tools) =~= self@);
        }
        r
    }

    /// Whether the server has the tool.
    pub fn knows(&self, name: &str) -> (r: bool)
        ensures
            r == self@.dom().contains(name@),
    {
        assert(self@.dom() =~= self.tools@.dom());
        self.tools.contains_key(name)
    }

    /// The call in a block, where it is one of a tool of the server.
    pub fn route(&self, chunk: &MessageContentBlock) -> (r: Option<McpCall>)
        ensures
            match chunk@ {
                BlockView::ToolCall { id, name, arguments } => if self@.dom().contains(name) {
                    r matches Some(call) && call.tool_call_id@ == id && call.name@ == name
                        && call.arguments@ == arguments
                } else {
                    r is None
                },
                _ => r is None,
            },
            match routed(self@, chunk@) {
                Some(to) => r matches Some(call) && (
                    call.tool_call_id@,
                    call.name@,
                    call.arguments@,
                ) == to,
                None => r is None,
            },
    {
        if let MessageContentBlock::ToolCall { id, name, arguments } = chunk {
            if self.knows(name.as_str()) {
                return Some(
                    McpCall {
                        tool_call_id: id.clone(),
                        name: name.clone(),
                        arguments: arguments.copy(),
                    },
                );
            }
        }
        None
    }

    /// Answers a call: with what the tool returned, or with the text of the error.
    pub fn deliver(
        chunk: &mut MessageContentBlock,
        call: &McpCall,
        outcome: &Result<String, PluginError>,
    )
        ensures
            final(chunk)@ == (BlockView::ToolResult {
                tool_call_id: call.tool_call_id@,
                output: match *outcome {
                    Ok(text) => text@,
                    Err(e) => error_text(e),
                },
            }),
            final(chunk)@ == answered(
                call.tool_call_id@,
                match *outcome {
                    Ok(text) => text@,
                    Err(e) => error_text(e),
                },
            ),
    {
        let output = match outcome {
            Ok(text) => text.clone(),
            Err(e) => e.to_text(),
        };
        *chunk = MessageContentBlock::ToolResult {
            tool_call_id: call.tool_call_id.clone(),
            output,
        };
    }
}

/// Of two tools with one name a server's later one counts, and every other tool is found as it
/// was listed.
pub proof fn law_later_tools_win(tools: Seq<McpToolView>, i: int)
    requires
        0 <= i < tools.len(),
        forall|j: int| i < j < tools.len() ==> (#[trigger] tools[j]).name != tools[i].name,
    ensures
        tools_by_name(tools).dom().contains(tools[i].name),
        tools_by_name(tools)[tools[i].name] == tools[i],
    decreases tools.len(),
{
    if i < tools.len() - 1 {
        let rest = tools.drop_last();
        assert(rest[i] == tools[i]);
        assert forall|j: int| i < j < rest.len() implies (#[trigger] rest[j]).name
            != rest[i].name by {
            assert(rest[j] == tools[j]);
        }
        law_later_tools_win(rest, i);
        assert(tools.last() == tools[tools.len() - 1]);
    }
}

} // verus!
