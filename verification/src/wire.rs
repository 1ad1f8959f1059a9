//! Requests as JSON.

use crate::float::SingleView;
use crate::json::{json_parse, lemma_json_view, array_view, object_of, pair_views, Json, JsonView, Number, NumberView};
use crate::request::{PromptCacheBreakpoint, PromptCacheDirective, RequestView, ThinkingConfig, UnifiedRequest};
use crate::types::{
    block_views, message_views, tool_views, BlockView, MessageContentBlock, MessageRole,
    MessageView, ProviderEndpoint, ProviderView, ToolDefinition, ToolView, UnifiedMessage,
};
use vstd::prelude::*;
use vstd::string::*;

verus! {

/// A member.
fn pair(key: &str, value: Json) -> (r: (String, Json))
    ensures
        r.0@ == key@,
        r.1 == value,
{
    (key.to_owned(), value)
}

/// An optional text.
pub open spec fn text_value(text: Option<Seq<char>>) -> JsonView {
    match text {
        Some(t) => JsonView::String(t),
        None => JsonView::Null,
    }
}

/// An optional text.
fn text_json(text: &Option<String>) -> (r: Json)
    ensures
        r@ == text_value(crate::types::optional_text(*text)),
{
    broadcast use lemma_json_view;

    match text {
        Some(t) => Json::String(t.clone()),
        None => Json::Null,
    }
}

/// An optional count.
pub open spec fn count_value(count: Option<u32>) -> JsonView {
    match count {
        Some(n) => JsonView::Number(NumberView::PosInt(n as u64)),
        None => JsonView::Null,
    }
}

/// An optional count.
fn count_json(count: Option<u32>) -> (r: Json)
    ensures
        r@ == count_value(count),
{
    broadcast use lemma_json_view;

    match count {
        Some(n) => Json::Number(Number::from_u64(n as u64)),
        None => Json::Null,
    }
}

/// A provider.
pub open spec fn provider_value(p: ProviderView) -> JsonView {
    match p {
        ProviderView::OpenAi => JsonView::String("OpenAi"@),
        ProviderView::Anthropic => JsonView::String("Anthropic"@),
        ProviderView::Custom(address) => object_of(seq![("Custom"@, JsonView::String(address))]),
    }
}

/// A provider.
fn provider_json(p: &ProviderEndpoint) -> (r: Json)
    ensures
        r@ == provider_value(p@),
{
    broadcast use lemma_json_view;

    match p {
        ProviderEndpoint::OpenAi => Json::String("OpenAi".to_owned()),
        ProviderEndpoint::Anthropic => Json::String("Anthropic".to_owned()),
        ProviderEndpoint::Custom(address) => {
            let pairs = vec![pair("Custom", Json::String(address.clone()))];
            assert(pair_views(pairs@) =~= seq![("Custom"@, JsonView::String(address@))]);
            Json::object(pairs)
        },
    }
}

/// A role.
pub open spec fn role_value(role: MessageRole) -> JsonView {
    JsonView::String(
        match role {
            MessageRole::System => "System"@,
            MessageRole::User => "User"@,
            MessageRole::Assistant => "Assistant"@,
            MessageRole::Tool => "Tool"@,
        },
    )
}

/// A role.
fn role_json(role: MessageRole) -> (r: Json)
    ensures
        r@ == role_value(role),
{
    broadcast use lemma_json_view;

    let name = match role {
        MessageRole::System => "System",
        MessageRole::User => "User",
        MessageRole::Assistant => "Assistant",
        MessageRole::Tool => "Tool",
    };
    Json::String(name.to_owned())
}

/// A block: its kind, and with it what it holds.
pub open spec fn block_value(b: BlockView) -> JsonView {
    match b {
        BlockView::Text(text) => object_of(seq![("Text"@, JsonView::String(text))]),
        BlockView::Thinking { reasoning, signature } => object_of(
            seq![
                (
                    "Thinking"@,
                    object_of(
                        seq![
                            ("reasoning"@, JsonView::String(reasoning)),
                            ("signature"@, text_value(signature)),
                        ],
                    ),
                ),
            ],
        ),
        BlockView::ImageBase64 { media_type, data } => object_of(
            seq![
                (
                    "ImageBase64"@,
                    object_of(
                        seq![
                            ("media_type"@, JsonView::String(media_type)),
                            ("data"@, JsonView::String(data)),
                        ],
                    ),
                ),
            ],
        ),
        BlockView::ToolCall { id, name, arguments } => object_of(
            seq![
                (
                    "ToolCall"@,
                    object_of(
                        seq![
                            ("id"@, JsonView::String(id)),
                            ("name"@, JsonView::String(name)),
                            ("arguments"@, arguments),
                        ],
                    ),
                ),
            ],
        ),
        BlockView::ToolResult { tool_call_id, output } => object_of(
            seq![
                (
                    "ToolResult"@,
                    object_of(
                        seq![
                            ("tool_call_id"@, JsonView::String(tool_call_id)),
                            ("output"@, JsonView::String(output)),
                        ],
                    ),
                ),
            ],
        ),
    }
}

/// A value under its kind.
fn tagged(kind: &str, value: Json) -> (r: Json)
    ensures
        r@ == object_of(seq![(kind@, value@)]),
{
    let pairs = vec![pair(kind, value)];
    assert(pair_views(pairs@) =~= seq![(kind@, value@)]);
    Json::object(pairs)
}

/// A block.
fn block_json(block: &MessageContentBlock) -> (r: Json)
    ensures
        r@ == block_value(block@),
{
    broadcast use lemma_json_view;

    match block {
        MessageContentBlock::Text(text) => tagged("Text", Json::String(text.clone())),
        MessageContentBlock::Thinking { reasoning, signature } => {
            let pairs = vec![
                pair("reasoning", Json::String(reasoning.clone())),
                pair("signature", text_json(signature)),
            ];
            assert(pair_views(pairs@) =~= seq![
                ("reasoning"@, JsonView::String(reasoning@)),
                ("signature"@, text_value(crate::types::optional_text(*signature))),
            ]);
            tagged("Thinking", Json::object(pairs))
        },
        MessageContentBlock::ImageBase64 { media_type, data } => {
            let pairs = vec![
                pair("media_type", Json::String(media_type.clone())),
                pair("data", Json::String(data.clone())),
            ];
            assert(pair_views(pairs@) =~= seq![
                ("media_type"@, JsonView::String(media_type@)),
                ("data"@, JsonView::String(data@)),
            ]);
            tagged("ImageBase64", Json::object(pairs))
        },
        MessageContentBlock::ToolCall { id, name, arguments } => {
            let pairs = vec![
                pair("id", Json::String(id.clone())),
                pair("name", Json::String(name.clone())),
                pair("arguments", arguments.copy()),
            ];
            assert(pair_views(pairs@) =~= seq![
                ("id"@, JsonView::String(id@)),
                ("name"@, JsonView::String(name@)),
                ("arguments"@, arguments@),
            ]);
            tagged("ToolCall", Json::object(pairs))
        },
        MessageContentBlock::ToolResult { tool_call_id, output } => {
            let pairs = vec![
                pair("tool_call_id", Json::String(tool_call_id.clone())),
                pair("output", Json::String(output.clone())),
            ];
            assert(pair_views(pairs@) =~= seq![
                ("tool_call_id"@, JsonView::String(tool_call_id@)),
                ("output"@, JsonView::String(output@)),
            ]);
            tagged("ToolResult", Json::object(pairs))
        },
    }
}

/// Blocks.
pub open spec fn blocks_value(content: Seq<BlockView>) -> JsonView {
    JsonView::Array(Seq::new(content.len(), |i: int| block_value(content[i])))
}

/// Blocks.
fn blocks_json(content: &Vec<MessageContentBlock>) -> (r: Json)
    ensures
        r@ == blocks_value(block_views(content@)),
{
    broadcast use lemma_json_view;

    let mut items: Vec<Json> = Vec::new();
    let mut i: usize = 0;
    while i < content.len()
        invariant
            i <= content@.len(),
            items@.len() == i,
            forall|k: int| 0 <= k < i ==> (#[trigger] items@[k])@ == block_value(content@[k]@),
        decreases content@.len() - i,
    {
        items.push(block_json(&content[i]));
        i = i + 1;
    }
    assert(array_view(items@) =~= Seq::new(
        content@.len(),
        |i: int| block_value(block_views(content@)[i]),
    ));
    Json::Array(items)
}

/// A message.
pub open spec fn message_value(m: MessageView) -> JsonView {
    object_of(
        seq![
            ("role"@, role_value(m.role)),
            ("content"@, blocks_value(m.content)),
            ("name"@, text_value(m.name)),
            ("tool_call_id"@, text_value(m.tool_call_id)),
        ],
    )
}

/// A message.
fn message_json(m: &UnifiedMessage) -> (r: Json)
    ensures
        r@ == message_value(m@),
{
    let pairs = vec![
        pair("role", role_json(m.role)),
        pair("content", blocks_json(&m.content)),
        pair("name", text_json(&m.name)),
        pair("tool_call_id", text_json(&m.tool_call_id)),
    ];
    assert(pair_views(pairs@) =~= seq![
        ("role"@, role_value(m@.role)),
        ("content"@, blocks_value(m@.content)),
        ("name"@, text_value(m@.name)),
        ("tool_call_id"@, text_value(m@.tool_call_id)),
    ]);
    Json::object(pairs)
}

/// Messages.
pub open spec fn messages_value(messages: Seq<MessageView>) -> JsonView {
    JsonView::Array(Seq::new(messages.len(), |i: int| message_value(messages[i])))
}

/// Messages.
fn messages_json(messages: &Vec<UnifiedMessage>) -> (r: Json)
    ensures
        r@ == messages_value(message_views(messages@)),
{
    broadcast use lemma_json_view;

    let mut items: Vec<Json> = Vec::new();
    let mut i: usize = 0;
    while i < messages.len()
        invariant
            i <= messages@.len(),
            items@.len() == i,
            forall|k: int| 0 <= k < i ==> (#[trigger] items@[k])@ == message_value(messages@[k]@),
        decreases messages@.len() - i,
    {
        items.push(message_json(&messages[i]));
        i = i + 1;
    }
    assert(array_view(items@) =~= Seq::new(
        messages@.len(),
        |i: int| message_value(message_views(messages@)[i]),
    ));
    Json::Array(items)
}

/// A tool.
pub open spec fn tool_value(t: ToolView) -> JsonView {
    object_of(
        seq![
            ("name"@, JsonView::String(t.name)),
            ("description"@, JsonView::String(t.description)),
            ("input_schema"@, t.input_schema),
        ],
    )
}

/// A tool.
fn tool_json(t: &ToolDefinition) -> (r: Json)
    ensures
        r@ == tool_value(t@),
{
    broadcast use lemma_json_view;

    let pairs = vec![
        pair("name", Json::String(t.name.clone())),
        pair("description", Json::String(t.description.clone())),
        pair("input_schema", t.input_schema.copy()),
    ];
    assert(pair_views(pairs@) =~= seq![
        ("name"@, JsonView::String(t@.name)),
        ("description"@, JsonView::String(t@.description)),
        ("input_schema"@, t@.input_schema),
    ]);
    Json::object(pairs)
}

/// Tools.
pub open spec fn tools_value(tools: Seq<ToolView>) -> JsonView {
    JsonView::Array(Seq::new(tools.len(), |i: int| tool_value(tools[i])))
}

/// Tools.
fn tools_json(tools: &Vec<ToolDefinition>) -> (r: Json)
    ensures
        r@ == tools_value(tool_views(tools@)),
{
    broadcast use lemma_json_view;

    let mut items: Vec<Json> = Vec::new();
    let mut i: usize = 0;
    while i < tools.len()
        invariant
            i <= tools@.len(),
            items@.len() == i,
            forall|k: int| 0 <= k < i ==> (#[trigger] items@[k])@ == tool_value(tools@[k]@),
        decreases tools@.len() - i,
    {
        items.push(tool_json(&tools[i]));
        i = i + 1;
    }
    assert(array_view(items@) =~= Seq::new(
        tools@.len(),
        |i: int| tool_value(tool_views(tools@)[i]),
    ));
    Json::Array(items)
}

/// A place in the prompt.
pub open spec fn breakpoint_value(b: PromptCacheBreakpoint) -> JsonView {
    object_of(
        seq![
            ("message_index"@, JsonView::Number(NumberView::PosInt(b.message_index as u64))),
            ("block_index"@, JsonView::Number(NumberView::PosInt(b.block_index as u64))),
        ],
    )
}

/// A place in the prompt.
fn breakpoint_json(b: &PromptCacheBreakpoint) -> (r: Json)
    ensures
        r@ == breakpoint_value(*b),
{
    broadcast use lemma_json_view;

    let pairs = vec![
        pair("message_index", Json::Number(Number::from_u64(b.message_index as u64))),
        pair("block_index", Json::Number(Number::from_u64(b.block_index as u64))),
    ];
    assert(pair_views(pairs@) =~= seq![
        ("message_index"@, JsonView::Number(NumberView::PosInt(b.message_index as u64))),
        ("block_index"@, JsonView::Number(NumberView::PosInt(b.block_index as u64))),
    ]);
    Json::object(pairs)
}

/// What a provider may cache.
pub open spec fn directive_value(d: Option<Seq<PromptCacheBreakpoint>>) -> JsonView {
    match d {
        None => JsonView::Null,
        Some(places) => object_of(
            seq![
                (
                    "Ephemeral"@,
                    object_of(
                        seq![
                            (
                                "breakpoints"@,
                                JsonView::Array(
                                    Seq::new(places.len(), |i: int| breakpoint_value(places[i])),
                                ),
                            ),
                        ],
                    ),
                ),
            ],
        ),
    }
}

/// What a provider may cache.
fn directive_json(d: &Option<PromptCacheDirective>) -> (r: Json)
    ensures
        r@ == directive_value(
            match *d {
                Some(x) => Some(x@),
                None => None,
            },
        ),
{
    broadcast use lemma_json_view;

    match d {
        None => Json::Null,
        Some(PromptCacheDirective::Ephemeral { breakpoints }) => {
            let mut items: Vec<Json> = Vec::new();
            let mut i: usize = 0;
            while i < breakpoints.len()
                invariant
                    i <= breakpoints@.len(),
                    items@.len() == i,
                    forall|k: int|
                        0 <= k < i ==> (#[trigger] items@[k])@ == breakpoint_value(breakpoints@[k]),
                decreases breakpoints@.len() - i,
            {
                items.push(breakpoint_json(&breakpoints[i]));
                i = i + 1;
            }
            assert(array_view(items@) =~= Seq::new(
                breakpoints@.len(),
                |i: int| breakpoint_value(breakpoints@[i]),
            ));
            tagged("Ephemeral", tagged("breakpoints", Json::Array(items)))
        },
    }
}

/// How far the model may reason.
pub open spec fn thinking_value(t: Option<ThinkingConfig>) -> JsonView {
    match t {
        None => JsonView::Null,
        Some(c) => object_of(seq![("budget_tokens"@, count_value(c.budget_tokens))]),
    }
}

/// How far the model may reason.
fn thinking_json(t: &Option<ThinkingConfig>) -> (r: Json)
    ensures
        r@ == thinking_value(*t),
{
    broadcast use lemma_json_view;

    match t {
        None => Json::Null,
        Some(c) => tagged("budget_tokens", count_json(c.budget_tokens)),
    }
}

/// The temperature, where its text is JSON.
pub open spec fn temperature_value(t: Option<SingleView>) -> Option<JsonView> {
    match t {
        None => Some(JsonView::Null),
        Some(n) => json_parse(n.json_text),
    }
}

/// A request, where the text of its temperature is JSON.
pub open spec fn request_value(req: RequestView) -> Option<JsonView> {
    match temperature_value(req.temperature) {
        None => None,
        Some(temperature) => Some(
            object_of(
                seq![
                    ("model"@, JsonView::String(req.model)),
                    ("provider"@, provider_value(req.provider)),
                    ("messages"@, messages_value(req.messages)),
                    ("temperature"@, temperature),
                    ("max_tokens"@, count_value(req.max_tokens)),
                    ("stream"@, JsonView::Bool(req.stream)),
                    ("tools"@, tools_value(req.tools)),
                    ("thinking"@, thinking_value(req.thinking)),
                    ("prompt_cache"@, directive_value(req.prompt_cache)),
                ],
            ),
        ),
    }
}

/// A request as JSON, or `None` where the text of its temperature is not JSON.
pub fn request_json(req: &UnifiedRequest) -> (r: Option<Json>)
    ensures
        match request_value(req@) {
            Some(v) => r matches Some(j) && j@ == v,
            None => r is None,
        },
{
    broadcast use lemma_json_view;

    let temperature = match &req.temperature {
        None => Json::Null,
        Some(t) => match Json::parse(t.json_text.as_str()) {
            Some(j) => j,
            None => {
                return None;
            },
        },
    };
    let pairs = vec![
        pair("model", Json::String(req.model.clone())),
        pair("provider", provider_json(&req.provider)),
        pair("messages", messages_json(&req.messages)),
        pair("temperature", temperature),
        pair("max_tokens", count_json(req.max_tokens)),
        pair("stream", Json::Bool(req.stream)),
        pair("tools", tools_json(&req.tools)),
        pair("thinking", thinking_json(&req.thinking)),
        pair("prompt_cache", directive_json(&req.prompt_cache)),
    ];
    assert(pair_views(pairs@) =~= seq![
        ("model"@, JsonView::String(req@.model)),
        ("provider"@, provider_value(req@.provider)),
        ("messages"@, messages_value(req@.messages)),
        ("temperature"@, temperature@),
        ("max_tokens"@, count_value(req@.max_tokens)),
        ("stream"@, JsonView::Bool(req@.stream)),
        ("tools"@, tools_value(req@.tools)),
        ("thinking"@, thinking_value(req@.thinking)),
        ("prompt_cache"@, directive_value(req@.prompt_cache)),
    ]);
    Some(Json::object(pairs))
}

} // verus!
