//! What is asked of a model, and what it answers.

use crate::float::{Double, DoubleView, Single, SingleView};
use crate::types::{
    block_views, copy_blocks, copy_messages, copy_optional, message_views, optional_text,
    text_message, tool_views, BlockView, MessageContentBlock, MessageRole, MessageView,
    ProviderEndpoint, ProviderView, ToolDefinition, ToolView, UnifiedMessage,
};
use vstd::prelude::*;

verus! {

/// Whether and how far the model may reason.
#[derive(Debug, Clone, Copy, PartialEq, Eq, Structural)]
pub struct ThinkingConfig {
    /// How many tokens the reasoning may take.
    pub budget_tokens: Option<u32>,
}

/// A place up to which a provider may cache the prompt.
#[derive(Debug, Clone, Copy, PartialEq, Eq, Structural)]
pub struct PromptCacheBreakpoint {
    /// The message.
    pub message_index: usize,
    /// The block of the message.
    pub block_index: usize,
}

/// What a provider may cache of the prompt.
#[derive(Debug, PartialEq)]
pub enum PromptCacheDirective {
    /// The prompt up to each of these places.
    Ephemeral {
        /// The places.
        breakpoints: Vec<PromptCacheBreakpoint>,
    },
}

impl View for PromptCacheDirective {
    type V = Seq<PromptCacheBreakpoint>;

    open spec fn view(&self) -> Seq<PromptCacheBreakpoint> {
        match *self {
            PromptCacheDirective::Ephemeral { breakpoints } => breakpoints@,
        }
    }
}

impl Clone for PromptCacheDirective {
    fn clone(&self) -> (r: PromptCacheDirective)
        ensures
            r@ == self@,
    {
        match self {
            PromptCacheDirective::Ephemeral { breakpoints } => {
                let mut copy: Vec<PromptCacheBreakpoint> = Vec::new();
                let mut i: usize = 0;
                while i < breakpoints.len()
                    invariant
                        i <= breakpoints@.len(),
                        copy@ == breakpoints@.take(i as int),
                    decreases breakpoints@.len() - i,
                {
                    copy.push(breakpoints[i]);
                    i = i + 1;
                    assert(copy@ =~= breakpoints@.take(i as int));
                }
                assert(copy@ =~= breakpoints@);
                PromptCacheDirective::Ephemeral { breakpoints: copy }
            },
        }
    }
}

/// A request to a model.
#[derive(Debug, PartialEq)]
pub struct UnifiedRequest {
    /// The model.
    pub model: String,
    /// The service.
    pub provider: ProviderEndpoint,
    /// The conversation.
    pub messages: Vec<UnifiedMessage>,
    /// The sampling temperature.
    pub temperature: Option<Single>,
    /// How many tokens the answer may take.
    pub max_tokens: Option<u32>,
    /// Whether the answer is streamed.
    pub stream: bool,
    /// The tools that the model may call.
    pub tools: Vec<ToolDefinition>,
    /// Whether and how far the model may reason.
    pub thinking: Option<ThinkingConfig>,
    /// What the provider may cache of the prompt.
    pub prompt_cache: Option<PromptCacheDirective>,
}

/// What a [`UnifiedRequest`] is.
#[verifier::ext_equal]
pub struct RequestView {
    pub model: Seq<char>,
    pub provider: ProviderView,
    pub messages: Seq<MessageView>,
    pub temperature: Option<SingleView>,
    pub max_tokens: Option<u32>,
    pub stream: bool,
    pub tools: Seq<ToolView>,
    pub thinking: Option<ThinkingConfig>,
    pub prompt_cache: Option<Seq<PromptCacheBreakpoint>>,
}

impl View for UnifiedRequest {
    type V = RequestView;

    open spec fn view(&self) -> RequestView {
        RequestView {
            model: self.model@,
            provider: self.provider@,
            messages: message_views(self.messages@),
            temperature: match self.temperature {
                Some(t) => Some(t@),
                None => None,
            },
            max_tokens: self.max_tokens,
            stream: self.stream,
            tools: tool_views(self.tools@),
            thinking: self.thinking,
            prompt_cache: match self.prompt_cache {
                Some(d) => Some(d@),
                None => None,
            },
        }
    }
}

impl UnifiedRequest {
    /// A streamed request to `model` without messages.
    pub fn new(model: String) -> (r: UnifiedRequest)
        ensures
            r@ == (RequestView {
                model: model@,
                provider: ProviderView::OpenAi,
                messages: Seq::empty(),
                temperature: None,
                max_tokens: None,
                stream: true,
                tools: Seq::empty(),
                thinking: None,
                prompt_cache: None,
            }),
    {
        let r = UnifiedRequest {
            model,
            provider: ProviderEndpoint::OpenAi,
            messages: Vec::new(),
            temperature: None,
            max_tokens: None,
            stream: true,
            tools: Vec::new(),
            thinking: None,
            prompt_cache: None,
        };
        assert(r@.messages =~= Seq::empty());
        assert(r@.tools =~= Seq::empty());
        r
    }

    /// The request with one message more.
    pub fn add_message(self, message: UnifiedMessage) -> (r: UnifiedRequest)
        ensures
            r@ == (RequestView { messages: self@.messages.push(message@), ..self@ }),
    {
        let mut r = self;
        r.messages.push(message);
        assert(r@.messages =~= self@.messages.push(message@));
        r
    }

    /// The request with one system message more.
    pub fn add_system_message(self, text: String) -> (r: UnifiedRequest)
        ensures
            r@ == (RequestView {
                messages: self@.messages.push(text_message(MessageRole::System, text@)),
                ..self@
            }),
    {
        self.add_message(UnifiedMessage::system(text))
    }

    /// The request with one user message more.
    pub fn add_user_message(self, text: String) -> (r: UnifiedRequest)
        ensures
            r@ == (RequestView {
                messages: self@.messages.push(text_message(MessageRole::User, text@)),
                ..self@
            }),
    {
        self.add_message(UnifiedMessage::user(text))
    }

    /// The request with one tool more.
    pub fn add_tool(self, tool: ToolDefinition) -> (r: UnifiedRequest)
        ensures
            r@ == (RequestView { tools: self@.tools.push(tool@), ..self@ }),
    {
        let mut r = self;
        r.tools.push(tool);
        assert(r@.tools =~= self@.tools.push(tool@));
        r
    }

    /// The request with a sampling temperature.
    pub fn set_temperature(self, temperature: Single) -> (r: UnifiedRequest)
        ensures
            r@ == (RequestView { temperature: Some(temperature@), ..self@ }),
    {
        let mut r = self;
        r.temperature = Some(temperature);
        r
    }

    /// The request with a limit on the answer.
    pub fn set_max_tokens(self, max_tokens: u32) -> (r: UnifiedRequest)
        ensures
            r@ == (RequestView { max_tokens: Some(max_tokens), ..self@ }),
    {
        let mut r = self;
        r.max_tokens = Some(max_tokens);
        r
    }

    /// The request, streamed or not.
    pub fn with_stream(self, stream: bool) -> (r: UnifiedRequest)
        ensures
            r@ == (RequestView { stream, ..self@ }),
    {
        let mut r = self;
        r.stream = stream;
        r
    }

    /// The request with reasoning.
    pub fn enable_thinking(self, budget_tokens: Option<u32>) -> (r: UnifiedRequest)
        ensures
            r@ == (RequestView { thinking: Some(ThinkingConfig { budget_tokens }), ..self@ }),
    {
        let mut r = self;
        r.thinking = Some(ThinkingConfig { budget_tokens });
        r
    }

    /// The request with a cache directive.
    pub fn with_prompt_cache(self, directive: PromptCacheDirective) -> (r: UnifiedRequest)
        ensures
            r@ == (RequestView { prompt_cache: Some(directive@), ..self@ }),
    {
        let mut r = self;
        r.prompt_cache = Some(directive);
        r
    }
}

/// The same tools again.
fn copy_tools(v: &Vec<ToolDefinition>) -> (r: Vec<ToolDefinition>)
    ensures
        tool_views(r@) == tool_views(v@),
{
    let mut r: Vec<ToolDefinition> = Vec::new();
    let mut i: usize = 0;
    while i < v.len()
        invariant
            i <= v@.len(),
            r@.len() == i,
            forall|k: int| 0 <= k < i ==> (#[trigger] r@[k])@ == v@[k]@,
        decreases v@.len() - i,
    {
        r.push(v[i].clone());
        i = i + 1;
    }
    assert(tool_views(r@) =~= tool_views(v@));
    r
}

impl Clone for UnifiedRequest {
    fn clone(&self) -> (r: UnifiedRequest)
        ensures
            r@ == self@,
    {
        UnifiedRequest {
            model: self.model.clone(),
            provider: self.provider.clone(),
            messages: copy_messages(&self.messages),
            temperature: match &self.temperature {
                Some(t) => Some(t.copy()),
                None => None,
            },
            max_tokens: self.max_tokens,
            stream: self.stream,
            tools: copy_tools(&self.tools),
            thinking: self.thinking,
            prompt_cache: match &self.prompt_cache {
                Some(d) => Some(d.clone()),
                None => None,
            },
        }
    }
}

/// What a provider reports of its prompt cache.
#[derive(Debug, Clone, Copy, PartialEq, Eq, Structural)]
pub struct PromptCacheUsage {
    /// Prompt tokens that were read from the cache.
    pub read_tokens: u32,
    /// Prompt tokens that were written to the cache.
    pub write_tokens: u32,
}

/// A model's answer.
#[derive(Debug, PartialEq)]
pub struct UnifiedResponse {
    /// The model.
    pub model: String,
    /// The service.
    pub provider: ProviderEndpoint,
    /// How long the answer took, in seconds.
    pub duration_secs: Double,
    /// The tokens of the prompt.
    pub prompt_tokens: u32,
    /// The tokens of the answer.
    pub completion_tokens: u32,
    /// Why the answer ended.
    pub finish_reason: Option<String>,
    /// The answer.
    pub content: Vec<MessageContentBlock>,
    /// What the provider reports of its prompt cache.
    pub prompt_cache_usage: Option<PromptCacheUsage>,
}

/// What a [`UnifiedResponse`] is.
#[verifier::ext_equal]
pub struct ResponseView {
    pub model: Seq<char>,
    pub provider: ProviderView,
    pub duration_secs: DoubleView,
    pub prompt_tokens: u32,
    pub completion_tokens: u32,
    pub finish_reason: Option<Seq<char>>,
    pub content: Seq<BlockView>,
    pub prompt_cache_usage: Option<PromptCacheUsage>,
}

impl View for UnifiedResponse {
    type V = ResponseView;

    open spec fn view(&self) -> ResponseView {
        ResponseView {
            model: self.model@,
            provider: self.provider@,
            duration_secs: self.duration_secs@,
            prompt_tokens: self.prompt_tokens,
            completion_tokens: self.completion_tokens,
            finish_reason: optional_text(self.finish_reason),
            content: block_views(self.content@),
            prompt_cache_usage: self.prompt_cache_usage,
        }
    }
}

impl Clone for UnifiedResponse {
    fn clone(&self) -> (r: UnifiedResponse)
        ensures
            r@ == self@,
    {
        UnifiedResponse {
            model: self.model.clone(),
            provider: self.provider.clone(),
            duration_secs: self.duration_secs.copy(),
            prompt_tokens: self.prompt_tokens,
            completion_tokens: self.completion_tokens,
            finish_reason: copy_optional(&self.finish_reason),
            content: copy_blocks(&self.content),
            prompt_cache_usage: self.prompt_cache_usage,
        }
    }
}

} // verus!
