//! Messages, content blocks and tools: what a conversation is made of.

use crate::json::{Json, JsonView};
use crate::text::{has_substring, str_contains, str_eq};
use vstd::prelude::*;

verus! {

/// The text of an optional string.
pub open spec fn optional_text(o: Option<String>) -> Option<Seq<char>> {
    match o {
        Some(s) => Some(s@),
        None => None,
    }
}

/// The texts of a sequence of strings.
pub open spec fn texts(v: Seq<String>) -> Seq<Seq<char>> {
    Seq::new(v.len(), |i: int| v[i]@)
}

/// The same optional string again.
pub fn copy_optional(o: &Option<String>) -> (r: Option<String>)
    ensures
        optional_text(r) == optional_text(*o),
{
    match o {
        Some(s) => Some(s.clone()),
        None => None,
    }
}

/// The same strings again.
pub fn copy_texts(v: &Vec<String>) -> (r: Vec<String>)
    ensures
        texts(r@) == texts(v@),
{
    let mut r: Vec<String> = Vec::new();
    let mut i: usize = 0;
    while i < v.len()
        invariant
            i <= v@.len(),
            r@.len() == i,
            forall|k: int| 0 <= k < i ==> (#[trigger] r@[k])@ == v@[k]@,
        decreases v@.len() - i,
    {
        r.push(v[i].clone());
        i = i + 1;
    }
    assert(texts(r@) =~= texts(v@));
    r
}

/// Whether two lists of strings are equal.
pub fn same_texts(a: &Vec<String>, b: &Vec<String>) -> (r: bool)
    ensures
        r == (texts(a@) == texts(b@)),
{
    if a.len() != b.len() {
        assert(texts(a@).len() != texts(b@).len());
        return false;
    }
    let mut i: usize = 0;
    while i < a.len()
        invariant
            a@.len() == b@.len(),
            i <= a@.len(),
            forall|k: int| 0 <= k < i ==> (#[trigger] a@[k])@ == b@[k]@,
        decreases a@.len() - i,
    {
        if !str_eq(a[i].as_str(), b[i].as_str()) {
            assert(texts(a@)[i as int] != texts(b@)[i as int]);
            return false;
        }
        i = i + 1;
    }
    assert(texts(a@) =~= texts(b@));
    true
}

/// Who wrote a message.
#[derive(Debug, Clone, Copy, PartialEq, Eq, Structural)]
pub enum MessageRole {
    /// Instructions to the model.
    System,
    /// The person.
    User,
    /// The model.
    Assistant,
    /// A tool.
    Tool,
}

/// One block of a message's content.
#[derive(Debug, PartialEq)]
pub enum MessageContentBlock {
    /// Plain text.
    Text(String),
    /// The model's reasoning.
    Thinking {
        /// The reasoning.
        reasoning: String,
        /// The provider's signature over it.
        signature: Option<String>,
    },
    /// An image.
    ImageBase64 {
        /// The MIME type.
        media_type: String,
        /// The image in base64.
        data: String,
    },
    /// A call of a tool.
    ToolCall {
        /// The call's id.
        id: String,
        /// The tool's name.
        name: String,
        /// The arguments.
        arguments: Json,
    },
    /// The result of a tool call.
    ToolResult {
        /// The id of the call that this answers.
        tool_call_id: String,
        /// What the tool returned.
        output: String,
    },
}

/// What a [`MessageContentBlock`] is.
pub enum BlockView {
    /// Plain text.
    Text(Seq<char>),
    /// The model's reasoning.
    Thinking { reasoning: Seq<char>, signature: Option<Seq<char>> },
    /// An image.
    ImageBase64 { media_type: Seq<char>, data: Seq<char> },
    /// A call of a tool.
    ToolCall { id: Seq<char>, name: Seq<char>, arguments: JsonView },
    /// The result of a tool call.
    ToolResult { tool_call_id: Seq<char>, output: Seq<char> },
}

impl View for MessageContentBlock {
    type V = BlockView;

    open spec fn view(&self) -> BlockView {
        match *self {
            MessageContentBlock::Text(text) => BlockView::Text(text@),
            MessageContentBlock::Thinking { reasoning, signature } => BlockView::Thinking {
                reasoning: reasoning@,
                signature: optional_text(signature),
            },
            MessageContentBlock::ImageBase64 { media_type, data } => BlockView::ImageBase64 {
                media_type: media_type@,
                data: data@,
            },
            MessageContentBlock::ToolCall { id, name, arguments } => BlockView::ToolCall {
                id: id@,
                name: name@,
                arguments: arguments@,
            },
            MessageContentBlock::ToolResult { tool_call_id, output } => BlockView::ToolResult {
                tool_call_id: tool_call_id@,
                output: output@,
            },
        }
    }
}

impl Clone for MessageContentBlock {
    fn clone(&self) -> (r: MessageContentBlock)
        ensures
            r@ == self@,
    {
        match self {
            MessageContentBlock::Text(text) => MessageContentBlock::Text(text.clone()),
            MessageContentBlock::Thinking {
                reasoning,
                signature,
            } => MessageContentBlock::Thinking {
                reasoning: reasoning.clone(),
                signature: copy_optional(signature),
            },
            MessageContentBlock::ImageBase64 {
                media_type,
                data,
            } => MessageContentBlock::ImageBase64 {
                media_type: media_type.clone(),
                data: data.clone(),
            },
            MessageContentBlock::ToolCall { id, name, arguments } => MessageContentBlock::ToolCall {
                id: id.clone(),
                name: name.clone(),
                arguments: arguments.copy(),
            },
            MessageContentBlock::ToolResult {
                tool_call_id,
                output,
            } => MessageContentBlock::ToolResult {
                tool_call_id: tool_call_id.clone(),
                output: output.clone(),
            },
        }
    }
}

/// The views of a sequence of blocks.
pub open spec fn block_views(v: Seq<MessageContentBlock>) -> Seq<BlockView> {
    Seq::new(v.len(), |i: int| v[i]@)
}

/// The same blocks again.
pub fn copy_blocks(v: &Vec<MessageContentBlock>) -> (r: Vec<MessageContentBlock>)
    ensures
        block_views(r@) == block_views(v@),
{
    let mut r: Vec<MessageContentBlock> = Vec::new();
    let mut i: usize = 0;
    while i < v.len()
        invariant
            i <= v@.len(),
            r@.len() == i,
            forall|k: int| 0 <= k < i ==> (#[trigger] r@[k])@ == v@[k]@,
        decreases v@.len() - i,
    {
        r.push(v[i].clone());
        i = i + 1;
    }
    assert(block_views(r@) =~= block_views(v@));
    r
}

/// One message of a conversation.
#[derive(Debug, PartialEq)]
pub struct UnifiedMessage {
    /// Who wrote it.
    pub role: MessageRole,
    /// Its content.
    pub content: Vec<MessageContentBlock>,
    /// The writer's name.
    pub name: Option<String>,
    /// The tool call that the message answers.
    pub tool_call_id: Option<String>,
}

/// What a [`UnifiedMessage`] is.
#[verifier::ext_equal]
pub struct MessageView {
    pub role: MessageRole,
    pub content: Seq<BlockView>,
    pub name: Option<Seq<char>>,
    pub tool_call_id: Option<Seq<char>>,
}

impl View for UnifiedMessage {
    type V = MessageView;

    open spec fn view(&self) -> MessageView {
        MessageView {
            role: self.role,
            content: block_views(self.content@),
            name: optional_text(self.name),
            tool_call_id: optional_text(self.tool_call_id),
        }
    }
}

/// A message of one text block.
pub open spec fn text_message(role: MessageRole, text: Seq<char>) -> MessageView {
    MessageView { role, content: seq![BlockView::Text(text)], name: None, tool_call_id: None }
}

impl UnifiedMessage {
    /// A message of one text block.
    fn of_text(role: MessageRole, text: String) -> (r: UnifiedMessage)
        ensures
            r@ == text_message(role, text@),
    {
        let mut content: Vec<MessageContentBlock> = Vec::new();
        content.push(MessageContentBlock::Text(text));
        let r = UnifiedMessage { role, content, name: None, tool_call_id: None };
        assert(r@.content =~= seq![BlockView::Text(text@)]);
        r
    }

    /// A system message.
    pub fn system(text: String) -> (r: UnifiedMessage)
        ensures
            r@ == text_message(MessageRole::System, text@),
    {
        UnifiedMessage::of_text(MessageRole::System, text)
    }

    /// A user message.
    pub fn user(text: String) -> (r: UnifiedMessage)
        ensures
            r@ == text_message(MessageRole::User, text@),
    {
        UnifiedMessage::of_text(MessageRole::User, text)
    }

    /// An assistant message.
    pub fn assistant(text: String) -> (r: UnifiedMessage)
        ensures
            r@ == text_message(MessageRole::Assistant, text@),
    {
        UnifiedMessage::of_text(MessageRole::Assistant, text)
    }
}

impl Clone for UnifiedMessage {
    fn clone(&self) -> (r: UnifiedMessage)
        ensures
            r@ == self@,
    {
        UnifiedMessage {
            role: self.role,
            content: copy_blocks(&self.content),
            name: copy_optional(&self.name),
            tool_call_id: copy_optional(&self.tool_call_id),
        }
    }
}

/// The views of a sequence of messages.
pub open spec fn message_views(v: Seq<UnifiedMessage>) -> Seq<MessageView> {
    Seq::new(v.len(), |i: int| v[i]@)
}

/// The same messages again.
pub fn copy_messages(v: &Vec<UnifiedMessage>) -> (r: Vec<UnifiedMessage>)
    ensures
        message_views(r@) == message_views(v@),
{
    let mut r: Vec<UnifiedMessage> = Vec::new();
    let mut i: usize = 0;
    while i < v.len()
        invariant
            i <= v@.len(),
            r@.len() == i,
            forall|k: int| 0 <= k < i ==> (#[trigger] r@[k])@ == v@[k]@,
        decreases v@.len() - i,
    {
        r.push(v[i].clone());
        i = i + 1;
    }
    assert(message_views(r@) =~= message_views(v@));
    r
}

/// A tool that the model may call.
#[derive(Debug, PartialEq)]
pub struct ToolDefinition {
    /// The tool's name.
    pub name: String,
    /// What it does.
    pub description: String,
    /// The JSON Schema of its arguments.
    pub input_schema: Json,
}

/// What a [`ToolDefinition`] is.
pub struct ToolView {
    pub name: Seq<char>,
    pub description: Seq<char>,
    pub input_schema: JsonView,
}

impl View for ToolDefinition {
    type V = ToolView;

    open spec fn view(&self) -> ToolView {
        ToolView {
            name: self.name@,
            description: self.description@,
            input_schema: self.input_schema@,
        }
    }
}

impl Clone for ToolDefinition {
    fn clone(&self) -> (r: ToolDefinition)
        ensures
            r@ == self@,
    {
        ToolDefinition {
            name: self.name.clone(),
            description: self.description.clone(),
            input_schema: self.input_schema.copy(),
        }
    }
}

/// The views of a sequence of tools.
pub open spec fn tool_views(v: Seq<ToolDefinition>) -> Seq<ToolView> {
    Seq::new(v.len(), |i: int| v[i]@)
}

/// The service that answers a request.
#[derive(Debug, PartialEq)]
pub enum ProviderEndpoint {
    /// OpenAI.
    OpenAi,
    /// Anthropic.
    Anthropic,
    /// Any other service, by its address.
    Custom(String),
}

/// What a [`ProviderEndpoint`] is.
pub enum ProviderView {
    OpenAi,
    Anthropic,
    Custom(Seq<char>),
}

impl View for ProviderEndpoint {
    type V = ProviderView;

    open spec fn view(&self) -> ProviderView {
        match *self {
            ProviderEndpoint::OpenAi => ProviderView::OpenAi,
            ProviderEndpoint::Anthropic => ProviderView::Anthropic,
            ProviderEndpoint::Custom(address) => ProviderView::Custom(address@),
        }
    }
}

impl Clone for ProviderEndpoint {
    fn clone(&self) -> (r: ProviderEndpoint)
        ensures
            r@ == self@,
    {
        match self {
            ProviderEndpoint::OpenAi => ProviderEndpoint::OpenAi,
            ProviderEndpoint::Anthropic => ProviderEndpoint::Anthropic,
            ProviderEndpoint::Custom(address) => ProviderEndpoint::Custom(address.clone()),
        }
    }
}

/// A block is a text with the marker in it.
pub open spec fn is_marked(b: BlockView, marker: Seq<char>) -> bool {
    b matches BlockView::Text(text) && has_substring(text, marker)
}

/// Some text block holds the marker.
pub open spec fn holds_marker(messages: Seq<MessageView>, marker: Seq<char>) -> bool {
    exists|i: int, k: int|
        0 <= i < messages.len() && 0 <= k < messages[i].content.len() && #[trigger] is_marked(
            messages[i].content[k],
            marker,
        )
}

/// Whether some text block holds the marker.
pub fn has_marker(messages: &Vec<UnifiedMessage>, marker: &str) -> (r: bool)
    ensures
        r == holds_marker(message_views(messages@), marker@),
{
    let ghost all = message_views(messages@);
    let mut i: usize = 0;
    while i < messages.len()
        invariant
            all == message_views(messages@),
            i <= messages@.len(),
            forall|a: int, k: int|
                0 <= a < i && 0 <= k < all[a].content.len() ==> !#[trigger] is_marked(
                    all[a].content[k],
                    marker@,
                ),
        decreases messages@.len() - i,
    {
        let blocks = &messages[i].content;
        let mut k: usize = 0;
        while k < blocks.len()
            invariant
                all == message_views(messages@),
                i < messages@.len(),
                *blocks == messages@[i as int].content,
                k <= blocks@.len(),
                forall|b: int|
                    0 <= b < k ==> !#[trigger] is_marked(all[i as int].content[b], marker@),
            decreases blocks@.len() - k,
        {
            assert(all[i as int].content[k as int] == blocks@[k as int]@);
            if let MessageContentBlock::Text(text) = &blocks[k] {
                if str_contains(text.as_str(), marker) {
                    assert(is_marked(all[i as int].content[k as int], marker@));
                    return true;
                }
            }
            k = k + 1;
        }
        i = i + 1;
    }
    false
}

} // verus!
