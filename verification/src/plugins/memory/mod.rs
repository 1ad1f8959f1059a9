//! Context memory: keeps a conversation within the model's window, and a graph beside it.
//!
//! A request is measured ([`MemoryPlugin::measure`]), the observers are told
//! ([`MemoryPlugin::announce`]), and the request is made ready ([`MemoryPlugin::prepare`]): the
//! model is warned near the limit, the conversation is compressed where it is over its budget,
//! and the graph is put into a system message. What is a fraction of the window is computed by
//! the caller, who hands in the results.

pub mod compaction;
pub mod compaction_laws;
pub mod dedup_laws;
pub mod graph;
pub mod graph_laws;
pub mod laws;
pub mod request_laws;
pub mod step_laws;

use crate::error::{error_text, PluginError};
use crate::float::{Single, SingleView};
use crate::plugins::memory::compaction::{
    any_cut, any_marked, clamp_messages, clamp_parts, clear_results, cleared, close_sparing,
    copy_marked, dedup_reads, deduplicated, is_first_mark, last_of, last_with, lemma_moved,
    lemma_paired, mark_first, mark_observations, mark_protected, mark_removable, mark_window,
    moved, moved_to, observations_drop, only, paired, pin_at, protected, removable_turns,
    remove_marked, window_drop, without,
};
use crate::plugins::memory::compaction_laws::lemma_step_keeps_pin;
use crate::plugins::memory::graph::{
    graph_of, is_merged, is_snapshot, merge_report, merged_nodes, render_text, snapshot_refusal, GraphSnapshot,
    GraphView, MemoryGraph, MergePolicy, MergeReport, GRAPH_RENDER_MARKER,
};
use crate::request::{RequestView, UnifiedRequest};
use crate::text::{decimal, decimal_text, has_prefix, str_has_prefix};
use crate::tokenize::{
    count_tokens, load_encoder, named_encoder, token_count, token_sum, unknown_encoder_message,
    untokenizable_message, Encoder,
};
use crate::types::{
    block_views, has_marker, holds_marker, message_views, optional_text, text_message, BlockView,
    MessageContentBlock, MessageRole, MessageView, UnifiedMessage,
};
use std::sync::Arc;
use vstd::prelude::*;
use vstd::string::*;

verus! {

/// The plugin's name.
pub const NAME: &'static str = "context-memory";

/// Under which hint turns are stored.
pub const SESSION_HINT: &'static str = "cuca-memory";

/// What every warning starts with; a request that holds it gets no second one.
pub const WARNING_MARKER: &'static str = "CUCA context warning:";

/// One step of the compression; the steps run in the order in which they are configured.
#[derive(Debug, PartialEq, Eq)]
pub enum CompactionStrategy {
    /// Moves the oldest turns to the store, where there is one.
    Offload {
        /// How many.
        turns: usize,
    },
    /// Puts a summary in place of the oldest turns, where there is a summarizer.
    Summarize {
        /// How many.
        turns: usize,
    },
    /// Empties the outputs of reads of files that were read again later.
    DeduplicateFileReads {
        /// The tool that reads files.
        tool_name: String,
    },
    /// Empties the outputs of all tool calls but the newest.
    ClearToolResults {
        /// How many keep theirs.
        keep_pairs: usize,
    },
    /// Cuts every block that is too long.
    ClampOversizedMessages {
        /// How many tokens a block may have.
        max_part_tokens: u32,
    },
    /// Drops the oldest messages.
    SlidingWindow {
        /// How many stay.
        keep_messages: usize,
    },
    /// Drops system messages after the first.
    DropObservations,
    /// Drops the oldest turns.
    DropTurns,
}

impl Clone for CompactionStrategy {
    fn clone(&self) -> (r: CompactionStrategy)
        ensures
            match *self {
                CompactionStrategy::DeduplicateFileReads { tool_name } => {
                    r matches CompactionStrategy::DeduplicateFileReads { tool_name: name }
                        && name@ == tool_name@
                },
                _ => r == *self,
            },
    {
        match self {
            CompactionStrategy::Offload { turns } => CompactionStrategy::Offload { turns: *turns },
            CompactionStrategy::Summarize { turns } => CompactionStrategy::Summarize {
                turns: *turns,
            },
            CompactionStrategy::DeduplicateFileReads {
                tool_name,
            } => CompactionStrategy::DeduplicateFileReads { tool_name: tool_name.clone() },
            CompactionStrategy::ClearToolResults {
                keep_pairs,
            } => CompactionStrategy::ClearToolResults { keep_pairs: *keep_pairs },
            CompactionStrategy::ClampOversizedMessages {
                max_part_tokens,
            } => CompactionStrategy::ClampOversizedMessages { max_part_tokens: *max_part_tokens },
            CompactionStrategy::SlidingWindow {
                keep_messages,
            } => CompactionStrategy::SlidingWindow { keep_messages: *keep_messages },
            CompactionStrategy::DropObservations => CompactionStrategy::DropObservations,
            CompactionStrategy::DropTurns => CompactionStrategy::DropTurns,
        }
    }
}

/// Knows the windows of models.
pub trait ContextWindowResolver: Send + Sync {
    /// The window of `model`, or `None` to go by the configured one.
    fn resolve_window(&self, model: &str) -> Option<u32>;
}

/// How much of the window a request uses.
#[derive(Debug, Clone, Copy, PartialEq, Eq, Structural)]
pub struct ContextUsage {
    /// The tokens of the messages.
    pub used_tokens: u32,
    /// The window.
    pub window_tokens: u32,
    /// Whether the window is the resolver's, not the configured one.
    pub resolved: bool,
}

/// Who is told of every reading. An error aborts the request.
pub trait ContextUsageObserver: Send + Sync {
    /// Takes note of a reading.
    fn observe(&self, usage: &ContextUsage) -> Result<(), PluginError>;
}

/// Condenses turns.
pub trait Summarizer: Send + Sync {
    /// One text for `turns`, the oldest first.
    fn summarize(&self, turns: &[UnifiedMessage]) -> String;
}

/// Keeps turns.
pub trait VectorStore: Send + Sync {
    /// Stores `turns` under `session_hint`; an error leaves them in the conversation.
    fn store_turns(&self, session_hint: &str, turns: &[UnifiedMessage]) -> Result<(), PluginError>;
}

/// How much of the graph a request carries.
#[derive(Debug, Clone, Copy, PartialEq, Eq, Structural)]
pub struct GraphContextConfig {
    /// How many nodes.
    pub max_nodes: usize,
    /// How many relationships.
    pub max_relationships: usize,
}

impl Default for GraphContextConfig {
    fn default() -> (r: GraphContextConfig)
        ensures
            r == (GraphContextConfig { max_nodes: 64, max_relationships: 128 }),
    {
        GraphContextConfig { max_nodes: 64, max_relationships: 128 }
    }
}

/// How the plugin measures and compresses.
pub struct MemoryConfig {
    /// The vocabulary that texts are counted in: its name, or that of a model.
    pub encoder_name: String,
    /// The window, where the resolver knows none.
    pub context_window_tokens: u32,
    /// Who knows the windows of models.
    pub context_window_resolver: Option<Arc<dyn ContextWindowResolver>>,
    /// Compress with more messages than this; comes before the tokens.
    pub max_messages: Option<usize>,
    /// Compress from so many tokens on; not together with `max_fraction`.
    pub max_tokens: Option<u32>,
    /// Compress from this fraction of the window on.
    pub max_fraction: Option<Single>,
    /// Warn the model from this fraction of the window on.
    pub warn_fraction: Option<Single>,
    /// Who is told of every reading.
    pub observers: Vec<Arc<dyn ContextUsageObserver>>,
    /// The steps of the compression.
    pub strategies: Vec<CompactionStrategy>,
    /// How many turns `DropTurns` drops.
    pub offload_turns: usize,
    /// How many messages `DropObservations` drops.
    pub max_drop_system_observations: usize,
    /// Whether and how far requests carry the graph.
    pub graph_context: Option<GraphContextConfig>,
}

/// The steps that are configured where nothing else is said: those that need nobody first, then
/// the store and the summarizer, then those that only drop.
pub open spec fn is_default_menu(v: Seq<CompactionStrategy>) -> bool {
    &&& v.len() == 8
    &&& v[0] matches CompactionStrategy::DeduplicateFileReads { tool_name } && tool_name@
        == "read_file"@
    &&& v[1] == (CompactionStrategy::ClearToolResults { keep_pairs: 3 })
    &&& v[2] == (CompactionStrategy::ClampOversizedMessages { max_part_tokens: 4096 })
    &&& v[3] == (CompactionStrategy::SlidingWindow { keep_messages: 40 })
    &&& v[4] == (CompactionStrategy::Offload { turns: 10 })
    &&& v[5] == (CompactionStrategy::Summarize { turns: 10 })
    &&& v[6] == CompactionStrategy::DropObservations
    &&& v[7] == CompactionStrategy::DropTurns
}

/// The steps that are configured where nothing else is said.
fn default_strategies() -> (r: Vec<CompactionStrategy>)
    ensures
        is_default_menu(r@),
{
    let mut r: Vec<CompactionStrategy> = Vec::new();
    r.push(CompactionStrategy::DeduplicateFileReads { tool_name: "read_file".to_owned() });
    r.push(CompactionStrategy::ClearToolResults { keep_pairs: 3 });
    r.push(CompactionStrategy::ClampOversizedMessages { max_part_tokens: 4096 });
    r.push(CompactionStrategy::SlidingWindow { keep_messages: 40 });
    r.push(CompactionStrategy::Offload { turns: 10 });
    r.push(CompactionStrategy::Summarize { turns: 10 });
    r.push(CompactionStrategy::DropObservations);
    r.push(CompactionStrategy::DropTurns);
    r
}

impl Default for MemoryConfig {
    fn default() -> (r: MemoryConfig)
        ensures
            r.encoder_name@ == "cl100k_base"@,
            r.context_window_tokens == 128_000,
            r.context_window_resolver is None,
            r.max_messages is None,
            r.max_tokens is None,
            r.max_fraction matches Some(f) && f@ == (SingleView {
                bits: 0x3f4c_cccd,
                text: "0.8"@,
                json_text: "0.800000011920929"@,
            }),
            r.warn_fraction is None,
            r.observers@.len() == 0,
            is_default_menu(r.strategies@),
            r.offload_turns == 10,
            r.max_drop_system_observations == 3,
            r.graph_context is None,
    {
        MemoryConfig {
            encoder_name: "cl100k_base".to_owned(),
            context_window_tokens: 128_000,
            context_window_resolver: None,
            max_messages: None,
            max_tokens: None,
            max_fraction: Some(
                Single {
                    bits: 0x3f4c_cccd,
                    text: "0.8".to_owned(),
                    json_text: "0.800000011920929".to_owned(),
                },
            ),
            warn_fraction: None,
            observers: Vec::new(),
            strategies: default_strategies(),
            offload_turns: 10,
            max_drop_system_observations: 3,
            graph_context: None,
        }
    }
}

/// Two triggers are set that exclude each other.
pub open spec fn conflicting(c: MemoryConfig) -> bool {
    c.max_tokens is Some && c.max_fraction is Some
}

/// The refusal of two triggers that exclude each other.
pub open spec fn conflict_message() -> Seq<char> {
    "max_tokens and max_fraction are mutually exclusive"@
}

impl MemoryConfig {
    /// Refuses triggers that exclude each other.
    fn validate(&self) -> (r: Result<(), PluginError>)
        ensures
            if conflicting(*self) {
                r matches Err(PluginError::Internal(m)) && m@ == conflict_message()
            } else {
                r is Ok
            },
    {
        if self.max_tokens.is_some() && self.max_fraction.is_some() {
            return Err(
                PluginError::Internal(
                    "max_tokens and max_fraction are mutually exclusive".to_owned(),
                ),
            );
        }
        Ok(())
    }
}

/// What a conversation may come to.
#[derive(Debug, Clone, Copy, PartialEq, Eq, Structural)]
pub enum Budget {
    /// So many messages.
    Messages(usize),
    /// Fewer than so many tokens.
    Tokens(u32),
    /// Anything.
    Unlimited,
}

/// What a step of the compression did.
#[derive(Debug, Clone, Copy, PartialEq, Eq, Structural)]
pub enum CompressionAction {
    /// Turns moved to the store.
    Offloaded,
    /// Turns gave way to a summary.
    Summarized,
    /// Outputs of superseded reads were emptied.
    DeduplicatedFileReads,
    /// Old outputs were emptied.
    ClearedToolResults,
    /// Blocks were cut.
    ClampedParts,
    /// The oldest messages were dropped.
    Slid,
    /// System messages were dropped.
    DroppedObservations,
    /// The oldest turns were dropped.
    DroppedTurns,
}

/// What a compression did.
#[derive(Clone, Debug, PartialEq, Eq)]
pub struct CompressionReport {
    /// The tokens before it.
    pub tokens_before: u32,
    /// The tokens after it.
    pub tokens_after: u32,
    /// What the steps did, in order.
    pub actions: Vec<CompressionAction>,
    /// The text of the last error of a step.
    pub last_error: Option<String>,
}

/// What an import brought.
#[derive(Debug, Clone, Copy, PartialEq, Eq, Structural)]
pub struct GraphImportReport {
    /// How many nodes.
    pub nodes: usize,
    /// How many relationships.
    pub relationships: usize,
}

impl Default for GraphImportReport {
    fn default() -> (r: GraphImportReport)
        ensures
            r.nodes == 0,
            r.relationships == 0,
    {
        GraphImportReport { nodes: 0, relationships: 0 }
    }
}

/// What a role is called when messages are counted.
pub open spec fn role_name(role: MessageRole) -> Seq<char> {
    match role {
        MessageRole::System => "system"@,
        MessageRole::User => "user"@,
        MessageRole::Assistant => "assistant"@,
        MessageRole::Tool => "tool"@,
    }
}

/// What a role is called when messages are counted.
fn role_label(role: MessageRole) -> (r: &'static str)
    ensures
        r@ == role_name(role),
{
    match role {
        MessageRole::System => "system",
        MessageRole::User => "user",
        MessageRole::Assistant => "assistant",
        MessageRole::Tool => "tool",
    }
}

/// A text block more, with a space before it unless it is the first.
pub open spec fn spaced(before: Option<Seq<char>>, text: Seq<char>) -> Seq<char> {
    match before {
        Some(b) => b + " "@ + text,
        None => text,
    }
}

/// The text blocks with a space between them, where there is one.
pub open spec fn joined_blocks(content: Seq<BlockView>) -> Option<Seq<char>>
    decreases content.len(),
{
    if content.len() == 0 {
        None
    } else {
        let before = joined_blocks(content.drop_last());
        match content.last() {
            BlockView::Text(text) => Some(spaced(before, text)),
            _ => before,
        }
    }
}

/// The text of a message.
pub open spec fn message_text(m: MessageView) -> Seq<char> {
    match joined_blocks(m.content) {
        Some(text) => text,
        None => Seq::empty(),
    }
}

/// What of a message is counted.
pub open spec fn counted_text(m: MessageView) -> Seq<char> {
    role_name(m.role) + " "@ + message_text(m)
}

/// The text of a message.
pub fn joined_text(message: &UnifiedMessage) -> (r: String)
    ensures
        r@ == message_text(message@),
{
    let ghost all = message@.content;
    let mut r = String::new();
    let mut any = false;
    let mut b: usize = 0;
    assert(all.take(0) =~= Seq::<BlockView>::empty());
    while b < message.content.len()
        invariant
            all == block_views(message.content@),
            b <= all.len(),
            any == (joined_blocks(all.take(b as int)) is Some),
            any ==> joined_blocks(all.take(b as int)) == Some(r@),
            !any ==> r@ == Seq::<char>::empty(),
        decreases message.content@.len() - b,
    {
        proof {
            assert(all.take(b + 1).drop_last() =~= all.take(b as int));
            assert(all.take(b + 1).last() == message.content@[b as int]@);
        }
        if let MessageContentBlock::Text(text) = &message.content[b] {
            if any {
                r = r.concat(" ").concat(text.as_str());
            } else {
                r = text.clone();
                any = true;
            }
        }
        b = b + 1;
    }
    assert(all.take(b as int) =~= all);
    r
}

/// What of messages is counted.
pub open spec fn counted_texts(messages: Seq<MessageView>) -> Seq<Seq<char>> {
    Seq::new(messages.len(), |i: int| counted_text(messages[i]))
}

/// The tokens of messages as a 32-bit count, where each message can be split.
pub open spec fn measured(encoder: Encoder, messages: Seq<MessageView>) -> Option<u32> {
    match token_sum(encoder, counted_texts(messages)) {
        Some(n) => Some((n % 0x1_0000_0000) as u32),
        None => None,
    }
}

/// The error says that a text cannot be split.
pub open spec fn is_untokenizable(e: PluginError) -> bool {
    e matches PluginError::Internal(m) && m@ == untokenizable_message()
}

/// More messages than counted spoil nothing but the sum.
proof fn lemma_counted_step(encoder: Encoder, messages: Seq<MessageView>, i: int)
    requires
        0 <= i < messages.len(),
    ensures
        token_sum(encoder, counted_texts(messages).take(i + 1)) == match (
            token_sum(encoder, counted_texts(messages).take(i)),
            token_count(encoder, counted_text(messages[i])),
        ) {
            (Some(a), Some(b)) => Some(a + b),
            _ => None,
        },
{
    let all = counted_texts(messages);
    assert(all.take(i + 1).drop_last() =~= all.take(i));
    assert(all.take(i + 1).last() == counted_text(messages[i]));
}

/// The tokens of messages.
fn count_messages(encoder: Encoder, messages: &[UnifiedMessage]) -> (r: Result<u32, PluginError>)
    ensures
        match measured(encoder, message_views(messages@)) {
            Some(n) => r == Ok::<_, PluginError>(n),
            None => r matches Err(e) && is_untokenizable(e),
        },
{
    let ghost all = message_views(messages@);
    let count: usize = messages.len();
    let mut total: u128 = 0;
    let mut i: usize = 0;
    assert(counted_texts(all).take(0) =~= Seq::<Seq<char>>::empty());
    while i < count
        invariant
            i <= count == messages@.len(),
            all == message_views(messages@),
            token_sum(encoder, counted_texts(all).take(i as int)) == Some(total as nat),
            total <= i * 0xffff_ffff_ffff_ffff,
        decreases messages@.len() - i,
    {
        let message = &messages[i];
        let text = role_label(message.role).to_owned().concat(" ").concat(
            joined_text(message).as_str(),
        );
        assert(all[i as int] == message@);
        proof {
            lemma_counted_step(encoder, all, i as int);
        }
        match count_tokens(encoder, text.as_str()) {
            Some(n) => {
                total = total + n as u128;
            },
            None => {
                proof {
                    crate::tokenize::lemma_token_sum_prefix(
                        encoder,
                        counted_texts(all).take(i + 1),
                        counted_texts(all).skip(i + 1),
                    );
                    assert(counted_texts(all).take(i + 1) + counted_texts(all).skip(i + 1)
                        =~= counted_texts(all));
                }
                return Err(PluginError::Internal("text cannot be split into tokens".to_owned()));
            },
        }
        i = i + 1;
    }
    assert(counted_texts(all).take(i as int) =~= counted_texts(all));
    Ok((total % 0x1_0000_0000) as u32)
}

/// A conversation is over its budget.
pub open spec fn exceeds_budget(budget: Budget, messages: nat, used: u32) -> bool {
    match budget {
        Budget::Messages(n) => messages > n,
        Budget::Tokens(n) => used >= n,
        Budget::Unlimited => false,
    }
}

/// What the steps of a compression go by.
pub struct MemoryEnv {
    /// The vocabulary.
    pub encoder: Encoder,
    /// The steps.
    pub strategies: Seq<CompactionStrategy>,
    /// How many turns `DropTurns` drops.
    pub offload_turns: nat,
    /// How many messages `DropObservations` drops.
    pub max_observations: nat,
    /// The store, where there is one.
    pub store: Option<Arc<dyn VectorStore>>,
    /// The summarizer, where there is one.
    pub summarizer: Option<Arc<dyn Summarizer>>,
}

/// How a step of the compression ended.
pub enum Outcome {
    /// There was nothing to do.
    Idle,
    /// It did something.
    Acted(CompressionAction),
    /// It failed, with the error's text.
    Failed(Seq<char>),
}

/// How a step ended.
pub open spec fn outcome_of(r: Result<Option<CompressionAction>, PluginError>) -> Outcome {
    match r {
        Ok(None) => Outcome::Idle,
        Ok(Some(action)) => Outcome::Acted(action),
        Err(e) => Outcome::Failed(error_text(e)),
    }
}

/// A step that acts where `acts` says so.
pub open spec fn acting(acts: bool, action: CompressionAction) -> Outcome {
    if acts {
        Outcome::Acted(action)
    } else {
        Outcome::Idle
    }
}

/// A conversation that is being compressed.
#[verifier::ext_equal]
pub struct Talk {
    /// The messages.
    pub messages: Seq<MessageView>,
    /// Where the message stands that was the most recent user message at the start.
    pub pin: Option<int>,
}

/// The conversation of messages and a pin.
pub open spec fn talk_of(messages: Seq<UnifiedMessage>, pin: Option<usize>) -> Talk {
    Talk { messages: message_views(messages), pin: pin_at(pin) }
}

/// The pin, where there is one, points at a user message.
pub open spec fn is_pinned(t: Talk) -> bool {
    t.pin matches Some(p) ==> 0 <= p < t.messages.len() && t.messages[p].role == MessageRole::User
}

/// The oldest turns that may go, with the results of their calls.
pub open spec fn turns_drop(t: Talk, turns: nat) -> Seq<bool> {
    paired(
        t.messages,
        removable_turns(t.messages, t.pin, turns),
        protected(t.messages, t.pin),
    )
}

/// The oldest messages that go to leave `keep`, with the results of their calls.
pub open spec fn slide_drop(t: Talk, keep: nat) -> Seq<bool> {
    paired(t.messages, window_drop(t.messages, t.pin, keep), protected(t.messages, t.pin))
}

/// A conversation without the marked messages.
pub open spec fn dropping(t: Talk, marks: Seq<bool>) -> Talk {
    Talk {
        messages: without(t.messages, marks),
        pin: match t.pin {
            Some(p) => Some(moved(marks, p)),
            None => None,
        },
    }
}

/// A conversation in which a summary stands in place of the marked messages, where the first of
/// them was.
pub open spec fn summarized(t: Talk, marks: Seq<bool>, summary: Seq<char>) -> Talk {
    let first = choose|i: int| is_first_mark(marks, i);
    let kept = dropping(t, marks);
    Talk {
        messages: kept.messages.insert(first, text_message(MessageRole::User, summary)),
        pin: match kept.pin {
            Some(p) => Some(
                if first <= p {
                    p + 1
                } else {
                    p
                },
            ),
            None => None,
        },
    }
}

/// The protected messages are not among the turns that go, nor among what the window drops.
pub(crate) proof fn lemma_protected_stay(t: Talk, n: nat)
    ensures
        turns_drop(t, n).len() == t.messages.len(),
        slide_drop(t, n).len() == t.messages.len(),
        forall|i: int|
            0 <= i < t.messages.len() && #[trigger] protected(t.messages, t.pin)[i]
                ==> !turns_drop(t, n)[i] && !slide_drop(t, n)[i],
{
    let spared = protected(t.messages, t.pin);
    let turns = removable_turns(t.messages, t.pin, n);
    let window = window_drop(t.messages, t.pin, n);
    lemma_paired(t.messages, turns, spared);
    lemma_paired(t.messages, window, spared);
    assert forall|i: int| 0 <= i < t.messages.len() && #[trigger] spared[i] implies !turns_drop(
        t,
        n,
    )[i] && !slide_drop(t, n)[i] by {
        assert(!turns[i]);
        assert(!window[i]);
    }
}

/// Where a pin stands after messages went.
fn move_pin(pin: Option<usize>, marks: &Vec<bool>) -> (r: Option<usize>)
    requires
        pin matches Some(p) ==> p <= marks@.len(),
    ensures
        pin_at(r) == match pin_at(pin) {
            Some(p) => Some(moved(marks@, p)),
            None => None,
        },
{
    match pin {
        Some(p) => Some(moved_to(marks, p)),
        None => None,
    }
}

/// A store that is handed turns may answer so.
pub open spec fn is_stored<S: VectorStore + ?Sized>(
    store: &S,
    turns: Seq<MessageView>,
    stored: Result<(), PluginError>,
) -> bool {
    exists|handed: &[UnifiedMessage]|
        message_views(handed@) == turns && #[trigger] call_ensures(
            S::store_turns,
            (store, SESSION_HINT, handed),
            stored,
        )
}

/// A summarizer that is handed turns may sum them up so.
pub open spec fn is_summary<S: Summarizer + ?Sized>(
    summarizer: &S,
    turns: Seq<MessageView>,
    summary: Seq<char>,
) -> bool {
    exists|handed: &[UnifiedMessage], text: String|
        message_views(handed@) == turns && text@ == summary && #[trigger] call_ensures(
            S::summarize,
            (summarizer, handed),
            text,
        )
}

/// What handing the oldest turns to a store comes to: they go where the store takes them, and
/// stay where it fails.
pub open spec fn is_offloaded<S: VectorStore + ?Sized>(
    store: &S,
    turns: nat,
    before: Talk,
    after: Talk,
    outcome: Outcome,
) -> bool {
    let marks = turns_drop(before, turns);
    let some = any_marked(removable_turns(before.messages, before.pin, turns));
    match outcome {
        Outcome::Idle => after == before && !some,
        Outcome::Acted(action) => {
            &&& some
            &&& after == dropping(before, marks)
            &&& action == CompressionAction::Offloaded
            &&& is_stored(store, only(before.messages, marks), Ok(()))
        },
        Outcome::Failed(text) => {
            &&& some
            &&& after == before
            &&& exists|e: PluginError|
                #[trigger] is_stored(store, only(before.messages, marks), Err(e)) && text
                    == error_text(e)
        },
    }
}

/// What summing the oldest turns up comes to: the summary stands in their place.
pub open spec fn is_summed_up<S: Summarizer + ?Sized>(
    summarizer: &S,
    turns: nat,
    before: Talk,
    after: Talk,
    outcome: Outcome,
) -> bool {
    let marks = turns_drop(before, turns);
    if !any_marked(removable_turns(before.messages, before.pin, turns)) {
        after == before && outcome == Outcome::Idle
    } else {
        &&& outcome == Outcome::Acted(CompressionAction::Summarized)
        &&& exists|summary: Seq<char>|
            is_summary(summarizer, only(before.messages, marks), summary) && after
                == #[trigger] summarized(before, marks, summary)
    }
}

/// What a step of the compression may do. Whether storing succeeds is up to the store, and what
/// the summary says is up to the summarizer; everything else is fixed.
pub open spec fn strategy_step(
    env: MemoryEnv,
    strategy: CompactionStrategy,
    before: Talk,
    after: Talk,
    outcome: Outcome,
) -> bool {
    match strategy {
        CompactionStrategy::Offload { turns } => match env.store {
            Some(store) => is_offloaded::<dyn VectorStore>(
                &*store,
                turns as nat,
                before,
                after,
                outcome,
            ),
            None => after == before && outcome == Outcome::Idle,
        },
        CompactionStrategy::Summarize { turns } => match env.summarizer {
            Some(summarizer) => is_summed_up::<dyn Summarizer>(
                &*summarizer,
                turns as nat,
                before,
                after,
                outcome,
            ),
            None => after == before && outcome == Outcome::Idle,
        },
        CompactionStrategy::DeduplicateFileReads { tool_name } => {
            let r = deduplicated(before.messages, tool_name@);
            &&& after == (Talk { messages: r.0, pin: before.pin })
            &&& outcome == acting(r.1, CompressionAction::DeduplicatedFileReads)
        },
        CompactionStrategy::ClearToolResults { keep_pairs } => {
            let r = cleared(before.messages, keep_pairs as nat);
            &&& after == (Talk { messages: r.0, pin: before.pin })
            &&& outcome == acting(r.1, CompressionAction::ClearedToolResults)
        },
        CompactionStrategy::ClampOversizedMessages { max_part_tokens } => {
            &&& after == (Talk {
                messages: clamp_messages(env.encoder, max_part_tokens, before.messages),
                pin: before.pin,
            })
            &&& outcome == acting(
                any_cut(env.encoder, max_part_tokens, before.messages),
                CompressionAction::ClampedParts,
            )
        },
        CompactionStrategy::SlidingWindow { keep_messages } => {
            if before.messages.len() <= keep_messages {
                after == before && outcome == Outcome::Idle
            } else {
                &&& after == dropping(before, slide_drop(before, keep_messages as nat))
                &&& outcome == Outcome::Acted(CompressionAction::Slid)
            }
        },
        CompactionStrategy::DropObservations => {
            let marks = observations_drop(before.messages, env.max_observations);
            &&& after == dropping(before, marks)
            &&& outcome == acting(any_marked(marks), CompressionAction::DroppedObservations)
        },
        CompactionStrategy::DropTurns => {
            if !any_marked(removable_turns(before.messages, before.pin, env.offload_turns)) {
                after == before && outcome == Outcome::Idle
            } else {
                &&& after == dropping(before, turns_drop(before, env.offload_turns))
                &&& outcome == Outcome::Acted(CompressionAction::DroppedTurns)
            }
        },
    }
}

/// How far a compression has come.
#[verifier::ext_equal]
pub struct PassState {
    /// The conversation.
    pub talk: Talk,
    /// What the steps did.
    pub actions: Seq<CompressionAction>,
    /// The text of the last error of a step.
    pub last_error: Option<Seq<char>>,
    /// The pass is over before its last step: the conversation is within its budget.
    pub stopped: bool,
    /// The messages could not be counted.
    pub failed: bool,
    /// No pass follows.
    pub ended: bool,
}

/// One step of a pass.
pub open spec fn pass_step(
    env: MemoryEnv,
    budget: Budget,
    strategy: CompactionStrategy,
    s: PassState,
    t: PassState,
) -> bool {
    if s.stopped || s.failed {
        t == s
    } else {
        exists|after: Talk, outcome: Outcome|
            #[trigger] strategy_step(env, strategy, s.talk, after, outcome) && t == match outcome {
                Outcome::Idle => PassState { talk: after, ..s },
                Outcome::Failed(text) => PassState { talk: after, last_error: Some(text), ..s },
                Outcome::Acted(action) => {
                    let u = PassState { talk: after, actions: s.actions.push(action), ..s };
                    if budget == Budget::Unlimited {
                        u
                    } else {
                        match measured(env.encoder, after.messages) {
                            None => PassState { failed: true, ..u },
                            Some(used) => PassState {
                                stopped: !exceeds_budget(budget, after.messages.len(), used),
                                ..u
                            },
                        }
                    }
                },
            }
    }
}

/// The `n`th step of a pass, counted from one.
pub open spec fn nth_step(
    env: MemoryEnv,
    budget: Budget,
    n: nat,
    s: PassState,
    t: PassState,
) -> bool {
    pass_step(env, budget, env.strategies[n - 1], s, t)
}

/// The first `n` steps of a pass lead from `s` to `t`.
pub open spec fn pass_reached(
    env: MemoryEnv,
    budget: Budget,
    n: nat,
    s: PassState,
    t: PassState,
) -> bool
    decreases n,
{
    if n == 0 {
        t == s
    } else {
        exists|mid: PassState|
            pass_reached(env, budget, (n - 1) as nat, s, mid) && #[trigger] nth_step(
                env,
                budget,
                n,
                mid,
                t,
            )
    }
}

/// After a pass from `s` to `u` another one follows: there is a budget, the conversation is
/// still over it, and the pass did something.
pub open spec fn goes_on(env: MemoryEnv, budget: Budget, s: PassState, u: PassState) -> bool {
    &&& budget != Budget::Unlimited
    &&& !u.failed
    &&& measured(env.encoder, u.talk.messages) matches Some(used) && exceeds_budget(
        budget,
        u.talk.messages.len(),
        used,
    )
    &&& u.actions.len() > s.actions.len() || u.talk.messages.len() != s.talk.messages.len()
}

/// One pass and its end.
pub open spec fn round(env: MemoryEnv, budget: Budget, s: PassState, t: PassState) -> bool {
    exists|u: PassState|
        #[trigger] pass_reached(
            env,
            budget,
            env.strategies.len(),
            PassState { stopped: false, ..s },
            u,
        ) && t == PassState {
            failed: u.failed || (budget != Budget::Unlimited && measured(
                env.encoder,
                u.talk.messages,
            ) is None),
            ended: !goes_on(env, budget, s, u),
            ..u
        }
}

/// `n` passes lead from `s` to `t`.
pub open spec fn rounds(
    env: MemoryEnv,
    budget: Budget,
    n: nat,
    s: PassState,
    t: PassState,
) -> bool
    decreases n,
{
    if n == 0 {
        t == s
    } else {
        exists|mid: PassState|
            rounds(env, budget, (n - 1) as nat, s, mid) && !mid.ended && #[trigger] round(
                env,
                budget,
                mid,
                t,
            )
    }
}

/// One step more.
proof fn lemma_pass_more(
    env: MemoryEnv,
    budget: Budget,
    n: nat,
    s: PassState,
    mid: PassState,
    t: PassState,
)
    requires
        pass_reached(env, budget, n, s, mid),
        pass_step(env, budget, env.strategies[n as int], mid, t),
    ensures
        pass_reached(env, budget, n + 1, s, t),
{
    assert(nth_step(env, budget, n + 1, mid, t));
}

/// One pass more.
proof fn lemma_round_more(
    env: MemoryEnv,
    budget: Budget,
    n: nat,
    s: PassState,
    mid: PassState,
    t: PassState,
)
    requires
        rounds(env, budget, n, s, mid),
        !mid.ended,
        round(env, budget, mid, t),
    ensures
        rounds(env, budget, n + 1, s, t),
{
}

/// Where the most recent user message stands.
pub open spec fn recent_pin(messages: Seq<MessageView>) -> Option<int> {
    if exists|i: int| last_of(messages, MessageRole::User, i) {
        Some(choose|i: int| last_of(messages, MessageRole::User, i))
    } else {
        None
    }
}

/// Where a compression starts: the pin points at the most recent user message.
pub open spec fn pass_start(messages: Seq<MessageView>) -> PassState {
    PassState {
        talk: Talk { messages, pin: recent_pin(messages) },
        actions: Seq::empty(),
        last_error: None,
        stopped: false,
        failed: false,
        ended: false,
    }
}

/// A compression that took `n` passes, at most four, and ended in `t`.
pub open spec fn compression_ends(
    env: MemoryEnv,
    budget: Budget,
    before: Seq<MessageView>,
    n: nat,
    t: PassState,
) -> bool {
    &&& 1 <= n <= 4
    &&& rounds(env, budget, n, pass_start(before), t)
    &&& t.ended || n == 4
}

/// What a compression may do: up to four passes over the steps where there is a budget, one
/// otherwise. It fails only where the messages cannot be counted.
pub open spec fn compressed(
    env: MemoryEnv,
    budget: Budget,
    before: Seq<MessageView>,
    after: Seq<MessageView>,
    r: Result<CompressionReport, PluginError>,
) -> bool {
    match measured(env.encoder, before) {
        None => after == before && (r matches Err(e) && is_untokenizable(e)),
        Some(tokens_before) => exists|n: nat, t: PassState|
            #[trigger] compression_ends(env, budget, before, n, t) && after == t.talk.messages
                && if t.failed {
                r matches Err(e) && is_untokenizable(e)
            } else {
                match measured(env.encoder, after) {
                    None => r matches Err(e) && is_untokenizable(e),
                    Some(tokens_after) => {
                        &&& r matches Ok(report)
                        &&& report.tokens_before == tokens_before
                        &&& report.tokens_after == tokens_after
                        &&& report.actions@ == t.actions
                        &&& optional_text(report.last_error) == t.last_error
                    },
                }
            },
    }
}

/// The window that counts, and whether it is the resolver's.
pub open spec fn chosen_window(resolved: Option<u32>, configured: u32) -> (u32, bool) {
    match resolved {
        Some(window) => (window, true),
        None => (configured, false),
    }
}

/// A resolver may say this of a model.
pub open spec fn is_resolved<R: ContextWindowResolver + ?Sized>(
    resolver: &R,
    model: Seq<char>,
    resolved: Option<u32>,
) -> bool {
    exists|name: &str|
        name@ == model && #[trigger] call_ensures(R::resolve_window, (resolver, name), resolved)
}

/// Asks a resolver for the window of a model.
fn ask_resolver<R: ContextWindowResolver + ?Sized>(resolver: &R, model: &str) -> (r: Option<u32>)
    ensures
        is_resolved(resolver, model@, r),
{
    let resolved = resolver.resolve_window(model);
    assert(call_ensures(R::resolve_window, (resolver, model), resolved));
    resolved
}

/// The window that counts, of what the resolver said and what is configured.
pub fn choose_window(resolved: Option<u32>, configured: u32) -> (r: (u32, bool))
    ensures
        r == chosen_window(resolved, configured),
{
    match resolved {
        Some(window) => (window, true),
        None => (configured, false),
    }
}

/// The text of the first text block, from block `b` on.
pub open spec fn first_text(content: Seq<BlockView>, b: int) -> Option<Seq<char>>
    decreases content.len() - b,
{
    if b < 0 || b >= content.len() {
        None
    } else {
        match content[b] {
            BlockView::Text(text) => Some(text),
            _ => first_text(content, b + 1),
        }
    }
}

/// A message holds the graph: its first text starts with the marker.
pub open spec fn holds_graph(m: MessageView) -> bool {
    first_text(m.content, 0) matches Some(text) && has_prefix(text, GRAPH_RENDER_MARKER@)
}

/// The first message that holds the graph, from message `i` on.
pub open spec fn graph_index(messages: Seq<MessageView>, i: int) -> Option<int>
    decreases messages.len() - i,
{
    if i < 0 || i >= messages.len() {
        None
    } else if holds_graph(messages[i]) {
        Some(i)
    } else {
        graph_index(messages, i + 1)
    }
}

/// The first system message, from message `i` on.
pub open spec fn system_index(messages: Seq<MessageView>, i: int) -> Option<int>
    decreases messages.len() - i,
{
    if i < 0 || i >= messages.len() {
        None
    } else if messages[i].role == MessageRole::System {
        Some(i)
    } else {
        system_index(messages, i + 1)
    }
}

/// Where the graph goes: behind the first system message, or to the front.
pub open spec fn graph_slot(messages: Seq<MessageView>) -> int {
    match system_index(messages, 0) {
        Some(i) => i + 1,
        None => 0,
    }
}

/// Messages with the graph in them: in place of the message that holds it, or in its slot;
/// without a graph, no message that holds one.
pub open spec fn with_graph(messages: Seq<MessageView>, render: Option<Seq<char>>) -> Seq<
    MessageView,
> {
    match (render, graph_index(messages, 0)) {
        (Some(text), Some(i)) => messages.update(i, text_message(MessageRole::System, text)),
        (Some(text), None) => messages.insert(
            graph_slot(messages),
            text_message(MessageRole::System, text),
        ),
        (None, Some(i)) => messages.remove(i),
        (None, None) => messages,
    }
}

/// Whether a message holds the graph.
fn is_graph_message(message: &UnifiedMessage) -> (r: bool)
    ensures
        r == holds_graph(message@),
{
    let ghost all = message@.content;
    let mut b: usize = 0;
    while b < message.content.len()
        invariant
            all == block_views(message.content@),
            b <= all.len(),
            first_text(all, 0) == first_text(all, b as int),
        decreases message.content@.len() - b,
    {
        assert(all[b as int] == message.content@[b as int]@);
        if let MessageContentBlock::Text(text) = &message.content[b] {
            return str_has_prefix(text.as_str(), GRAPH_RENDER_MARKER);
        }
        b = b + 1;
    }
    false
}

/// The first message that holds the graph.
fn find_graph(messages: &Vec<UnifiedMessage>) -> (r: Option<usize>)
    ensures
        match r {
            Some(i) => graph_index(message_views(messages@), 0) == Some(i as int) && i
                < messages@.len(),
            None => graph_index(message_views(messages@), 0) is None,
        },
{
    let ghost all = message_views(messages@);
    let mut i: usize = 0;
    while i < messages.len()
        invariant
            all == message_views(messages@),
            i <= all.len(),
            graph_index(all, 0) == graph_index(all, i as int),
        decreases messages@.len() - i,
    {
        assert(all[i as int] == messages@[i as int]@);
        if is_graph_message(&messages[i]) {
            return Some(i);
        }
        i = i + 1;
    }
    None
}

/// Where the graph goes.
fn find_slot(messages: &Vec<UnifiedMessage>) -> (r: usize)
    ensures
        r == graph_slot(message_views(messages@)),
        r <= messages@.len(),
{
    let ghost all = message_views(messages@);
    let mut i: usize = 0;
    while i < messages.len()
        invariant
            all == message_views(messages@),
            i <= all.len(),
            system_index(all, 0) == system_index(all, i as int),
        decreases messages@.len() - i,
    {
        assert(all[i as int] == messages@[i as int]@);
        if messages[i].role == MessageRole::System {
            return i + 1;
        }
        i = i + 1;
    }
    0
}

/// Puts the graph into the messages, or takes it out.
pub fn inject_graph(messages: &mut Vec<UnifiedMessage>, render: Option<String>)
    ensures
        message_views(final(messages)@) == with_graph(
            message_views(old(messages)@),
            optional_text(render),
        ),
{
    let ghost all = message_views(messages@);
    let existing = find_graph(messages);
    match (render, existing) {
        (Some(text), Some(i)) => {
            let message = UnifiedMessage::system(text);
            messages.set(i, message);
            assert(message_views(messages@) =~= all.update(i as int, message@));
        },
        (Some(text), None) => {
            let slot: usize = find_slot(messages);
            let message = UnifiedMessage::system(text);
            messages.insert(slot, message);
            assert(message_views(messages@) =~= all.insert(slot as int, message@));
        },
        (None, Some(i)) => {
            messages.remove(i);
            assert(message_views(messages@) =~= all.remove(i as int));
        },
        (None, None) => {},
    }
}

/// How much of the window is used.
#[derive(Debug, PartialEq)]
pub struct WindowGauge {
    /// Whether the warning fraction is reached.
    pub near_limit: bool,
    /// The used part in percent, rounded.
    pub percent: String,
}

/// What the ratios of a measure come to.
#[derive(Debug, PartialEq)]
pub struct WindowReading {
    /// How much of the window is used.
    pub gauge: WindowGauge,
    /// The tokens that the configured fraction of the window comes to; zero where none is
    /// configured.
    pub fraction_tokens: u32,
}

/// The warning that the model gets.
pub open spec fn window_warning(percent: Seq<char>, window: u32) -> Seq<char> {
    WARNING_MARKER@ + " The conversation is at "@ + percent + "% of the "@ + decimal(
        window as nat,
    ) + "-token context window; wrap up soon."@
}

/// Messages with the warning that they need.
pub open spec fn with_warning(
    messages: Seq<MessageView>,
    gauge: WindowGauge,
    window: u32,
) -> Seq<MessageView> {
    if gauge.near_limit && !holds_marker(messages, WARNING_MARKER@) {
        messages.push(
            text_message(MessageRole::System, window_warning(gauge.percent@, window)),
        )
    } else {
        messages
    }
}

/// Warns the model near the limit, unless it has been warned.
fn inject_warning(messages: &mut Vec<UnifiedMessage>, gauge: &WindowGauge, window: u32)
    ensures
        message_views(final(messages)@) == with_warning(
            message_views(old(messages)@),
            *gauge,
            window,
        ),
{
    let ghost all = message_views(messages@);
    if gauge.near_limit && !has_marker(messages, WARNING_MARKER) {
        let text = WARNING_MARKER.to_owned().concat(" The conversation is at ").concat(
            gauge.percent.as_str(),
        ).concat("% of the ").concat(decimal_text(window as u128).as_str()).concat(
            "-token context window; wrap up soon.",
        );
        let message = UnifiedMessage::system(text);
        messages.push(message);
        assert(message_views(messages@) =~= all.push(message@));
    }
}

/// Hands the oldest turns to a store, and removes them where it takes them.
pub fn offload_to<S: VectorStore + ?Sized>(
    store: &S,
    turns: usize,
    messages: &mut Vec<UnifiedMessage>,
    pin: &mut Option<usize>,
) -> (r: Result<Option<CompressionAction>, PluginError>)
    requires
        is_pinned(talk_of(old(messages)@, *old(pin))),
    ensures
        is_offloaded(
            store,
            turns as nat,
            talk_of(old(messages)@, *old(pin)),
            talk_of(final(messages)@, *final(pin)),
            outcome_of(r),
        ),
{
    let ghost before = message_views(messages@);
    let ghost talk = talk_of(messages@, *pin);
    let oldest = mark_removable(messages, *pin, turns);
    if mark_first(&oldest).is_none() {
        return Ok(None);
    }
    assert(any_marked(oldest@));
    let stay = mark_protected(messages, *pin);
    let marks = close_sparing(messages, &oldest, &stay);
    assert(marks@ == turns_drop(talk, turns as nat));
    let taken = copy_marked(messages, &marks);
    let handed = taken.as_slice();
    let stored = store.store_turns(SESSION_HINT, handed);
    assert(message_views(handed@) == only(before, marks@));
    assert(call_ensures(S::store_turns, (store, SESSION_HINT, handed), stored));
    match stored {
        Ok(u) => {
            assert(u == ());
            assert(is_stored(store, only(before, marks@), Ok(())));
            remove_marked(messages, &marks);
            *pin = move_pin(*pin, &marks);
            assert(talk_of(messages@, *pin) == dropping(talk, marks@));
            Ok(Some(CompressionAction::Offloaded))
        },
        Err(e) => {
            assert(is_stored(store, only(before, marks@), Err(e)));
            Err(e)
        },
    }
}

/// The first mark is the only first mark.
proof fn lemma_first_mark(marks: Seq<bool>, i: int)
    requires
        is_first_mark(marks, i),
    ensures
        (choose|k: int| is_first_mark(marks, k)) == i,
{
    let k = choose|k: int| is_first_mark(marks, k);
    assert(is_first_mark(marks, k));
    if k < i {
        assert(marks[k]);
    } else if i < k {
        assert(marks[i]);
    }
}

/// Before the first mark nothing goes.
pub(crate) proof fn lemma_kept_head(messages: Seq<MessageView>, marks: Seq<bool>, i: int, n: int)
    requires
        marks.len() == messages.len(),
        0 <= i <= n <= messages.len(),
        forall|k: int| 0 <= k < n ==> !#[trigger] marks[k],
    ensures
        compaction::kept_from(messages, marks, i).len() >= n - i,
    decreases n - i,
{
    if i < n {
        lemma_kept_head(messages, marks, i + 1, n);
    }
}

/// Puts the summary that a summarizer makes of the oldest turns in their place.
pub fn summarize_with<S: Summarizer + ?Sized>(
    summarizer: &S,
    turns: usize,
    messages: &mut Vec<UnifiedMessage>,
    pin: &mut Option<usize>,
) -> (r: Option<CompressionAction>)
    requires
        is_pinned(talk_of(old(messages)@, *old(pin))),
    ensures
        is_summed_up(
            summarizer,
            turns as nat,
            talk_of(old(messages)@, *old(pin)),
            talk_of(final(messages)@, *final(pin)),
            outcome_of(Ok(r)),
        ),
{
    let ghost before = message_views(messages@);
    let ghost talk = talk_of(messages@, *pin);
    let oldest = mark_removable(messages, *pin, turns);
    if mark_first(&oldest).is_none() {
        return None;
    }
    assert(any_marked(oldest@));
    let stay = mark_protected(messages, *pin);
    let marks = close_sparing(messages, &oldest, &stay);
    assert(marks@ == turns_drop(talk, turns as nat));
    let taken = copy_marked(messages, &marks);
    let handed = taken.as_slice();
    let summary = summarizer.summarize(handed);
    assert(message_views(handed@) == only(before, marks@));
    assert(call_ensures(S::summarize, (summarizer, handed), summary));
    let ghost text = summary;
    assert(is_summary(summarizer, only(before, marks@), text@));
    let first = mark_first(&marks);
    proof {
        let k = choose|k: int| 0 <= k < oldest@.len() && #[trigger] oldest@[k];
        lemma_paired(before, oldest@, stay@);
        assert(marks@[k]);
    }
    if let Some(at) = first {
        remove_marked(messages, &marks);
        proof {
            lemma_first_mark(marks@, at as int);
            lemma_kept_head(before, marks@, 0, at as int);
        }
        let ghost kept = message_views(messages@);
        assert(kept.len() == messages@.len());
        let message = UnifiedMessage::user(summary);
        messages.insert(at, message);
        assert(message_views(messages@) =~= kept.insert(at as int, message@));
        proof {
            lemma_protected_stay(talk, turns as nat);
            if let Some(p) = talk.pin {
                assert(protected(before, talk.pin)[p]);
                lemma_moved(before, marks@, 0, p);
                assert(moved(marks@, 0) == 0);
                assert(moved(marks@, p) < messages.len());
            }
        }
        *pin = match move_pin(*pin, &marks) {
            Some(p) => if at <= p {
                Some(p + 1)
            } else {
                Some(p)
            },
            None => None,
        };
        assert(talk_of(messages@, *pin) == summarized(talk, marks@, text@));
    }
    Some(CompressionAction::Summarized)
}

/// Where the most recent user message stands, as it is found.
proof fn lemma_recent_pin(messages: Seq<UnifiedMessage>, pin: Option<usize>)
    requires
        match pin {
            Some(i) => last_of(message_views(messages), MessageRole::User, i as int),
            None => forall|k: int|
                0 <= k < messages.len() ==> (#[trigger] messages[k]).role != MessageRole::User,
        },
    ensures
        pin_at(pin) == recent_pin(message_views(messages)),
        is_pinned(talk_of(messages, pin)),
{
    let all = message_views(messages);
    match pin {
        Some(i) => {
            let k = choose|k: int| last_of(all, MessageRole::User, k);
            compaction::lemma_last_unique(all, MessageRole::User, i as int, k);
        },
        None => {
            if exists|k: int| last_of(all, MessageRole::User, k) {
                let k = choose|k: int| last_of(all, MessageRole::User, k);
                assert(all[k].role == messages[k].role);
            }
        },
    }
}

/// Keeps a conversation within the window, and a graph beside it.
pub struct MemoryPlugin {
    config: MemoryConfig,
    summarizer: Option<Arc<dyn Summarizer>>,
    store: Option<Arc<dyn VectorStore>>,
    encoder: Encoder,
    graph: MemoryGraph,
}

impl MemoryPlugin {
    /// How the plugin measures and compresses.
    pub closed spec fn config(&self) -> MemoryConfig {
        self.config
    }

    /// What the steps of a compression go by.
    pub closed spec fn env(&self) -> MemoryEnv {
        MemoryEnv {
            encoder: self.encoder,
            strategies: self.config.strategies@,
            offload_turns: self.config.offload_turns as nat,
            max_observations: self.config.max_drop_system_observations as nat,
            store: self.store,
            summarizer: self.summarizer,
        }
    }

    /// The graph.
    pub closed spec fn memory(&self) -> GraphView {
        self.graph@
    }

    /// The graph is one.
    pub closed spec fn wf(&self) -> bool {
        self.graph.wf()
    }

    /// A plugin with what was configured, and an empty graph.
    pub open spec fn is_new(
        &self,
        config: MemoryConfig,
        encoder: Encoder,
        summarizer: Option<Arc<dyn Summarizer>>,
        store: Option<Arc<dyn VectorStore>>,
    ) -> bool {
        &&& self.wf()
        &&& self.config() == config
        &&& self.env() == (MemoryEnv {
            encoder,
            strategies: config.strategies@,
            offload_turns: config.offload_turns as nat,
            max_observations: config.max_drop_system_observations as nat,
            store,
            summarizer,
        })
        &&& self.memory().nodes.dom() == Set::<Seq<char>>::empty()
        &&& self.memory().relationships.dom() == Set::<Seq<char>>::empty()
    }

    /// A plugin, or why the configuration cannot be honoured.
    pub open spec fn made(
        config: MemoryConfig,
        summarizer: Option<Arc<dyn Summarizer>>,
        store: Option<Arc<dyn VectorStore>>,
        r: Result<MemoryPlugin, PluginError>,
    ) -> bool {
        if conflicting(config) {
            r matches Err(PluginError::Internal(m)) && m@ == conflict_message()
        } else {
            match named_encoder(config.encoder_name@) {
                None => r matches Err(PluginError::Internal(m)) && m@ == unknown_encoder_message(
                    config.encoder_name@,
                ),
                Some(encoder) => r matches Ok(plugin) && plugin.is_new(
                    config,
                    encoder,
                    summarizer,
                    store,
                ),
            }
        }
    }

    /// A plugin without a summarizer and without a store.
    pub fn new(config: MemoryConfig) -> (r: Result<MemoryPlugin, PluginError>)
        ensures
            MemoryPlugin::made(config, None, None, r),
    {
        config.validate()?;
        let encoder = load_encoder(config.encoder_name.as_str())?;
        let graph = MemoryGraph::new();
        Ok(MemoryPlugin { config, summarizer: None, store: None, encoder, graph })
    }

    /// A plugin with a summarizer and a store.
    pub fn with_extensions(
        config: MemoryConfig,
        summarizer: Arc<dyn Summarizer>,
        store: Arc<dyn VectorStore>,
    ) -> (r: Result<MemoryPlugin, PluginError>)
        ensures
            ({
                let summarizer = Some(summarizer);
                let store = Some(store);
                MemoryPlugin::made(config, summarizer, store, r)
            }),
    {
        config.validate()?;
        let encoder = load_encoder(config.encoder_name.as_str())?;
        let graph = MemoryGraph::new();
        let summarizer = Some(summarizer);
        let store = Some(store);
        Ok(MemoryPlugin { config, summarizer, store, encoder, graph })
    }

    /// The plugin's name.
    pub fn name(&self) -> (r: &'static str)
        ensures
            r@ == NAME@,
    {
        NAME
    }

    /// The fractions of the window from which on the plugin compresses and warns.
    pub fn fractions(&self) -> (r: (&Option<Single>, &Option<Single>))
        ensures
            *r.0 == self.config().max_fraction,
            *r.1 == self.config().warn_fraction,
    {
        (&self.config.max_fraction, &self.config.warn_fraction)
    }

    /// The tokens of messages: of the role and the text blocks of each.
    pub fn count_tokens(&self, messages: &[UnifiedMessage]) -> (r: Result<u32, PluginError>)
        ensures
            match measured(self.env().encoder, message_views(messages@)) {
                Some(n) => r == Ok::<_, PluginError>(n),
                None => r matches Err(e) && is_untokenizable(e),
            },
    {
        count_messages(self.encoder, messages)
    }

    /// A window that a model may have: the resolver's where it gives one for the model, and else
    /// the configured one.
    pub open spec fn may_have_window(&self, model: Seq<char>, window: (u32, bool)) -> bool {
        exists|resolved: Option<u32>|
            match self.config().context_window_resolver {
                Some(resolver) => is_resolved::<dyn ContextWindowResolver>(
                    &*resolver,
                    model,
                    resolved,
                ),
                None => resolved is None,
            } && window == #[trigger] chosen_window(resolved, self.config().context_window_tokens)
    }

    /// The window of a model, and whether it is the resolver's. What the resolver says is its
    /// own affair; [`choose_window`] says what follows from it.
    pub fn resolved_window(&self, model: &str) -> (r: (u32, bool))
        ensures
            self.may_have_window(model@, r),
    {
        let resolved = match &self.config.context_window_resolver {
            Some(resolver) => ask_resolver::<dyn ContextWindowResolver>(&**resolver, model),
            None => None,
        };
        choose_window(resolved, self.config.context_window_tokens)
    }

    /// The budget: of messages, of tokens, or `fraction_tokens` of the window.
    pub open spec fn budgeted(&self, fraction_tokens: u32) -> Budget {
        match self.config().max_messages {
            Some(n) => Budget::Messages(n),
            None => match self.config().max_tokens {
                Some(n) => Budget::Tokens(n),
                None => if self.config().max_fraction is Some {
                    Budget::Tokens(fraction_tokens)
                } else {
                    Budget::Unlimited
                },
            },
        }
    }

    /// The budget, where the configured fraction of the window comes to `fraction_tokens`.
    pub fn budget(&self, fraction_tokens: u32) -> (r: Budget)
        ensures
            r == self.budgeted(fraction_tokens),
    {
        if let Some(n) = self.config.max_messages {
            return Budget::Messages(n);
        }
        if let Some(n) = self.config.max_tokens {
            return Budget::Tokens(n);
        }
        if self.config.max_fraction.is_some() {
            return Budget::Tokens(fraction_tokens);
        }
        Budget::Unlimited
    }

    /// Whether a conversation is over its budget.
    pub fn over_budget(&self, messages: &[UnifiedMessage], usage: u32, budget: &Budget) -> (r: bool)
        ensures
            r == exceeds_budget(*budget, messages@.len(), usage),
    {
        match budget {
            Budget::Messages(n) => messages.len() > *n,
            Budget::Tokens(n) => usage >= *n,
            Budget::Unlimited => false,
        }
    }

    /// The graph, to read and to change.
    pub fn graph(&mut self) -> (r: &mut MemoryGraph)
        ensures
            r@ == old(self).memory(),
            r.wf() == old(self).wf(),
            final(self).memory() == final(r)@,
            final(self).wf() == final(r).wf(),
            final(self).config() == old(self).config(),
            final(self).env() == old(self).env(),
    {
        &mut self.graph
    }

    /// Puts another graph into the graph.
    pub fn merge_graph(&mut self, other: MemoryGraph, policy: MergePolicy) -> (r: MergeReport)
        requires
            old(self).wf(),
            other.wf(),
        ensures
            final(self).wf(),
            final(self).memory().nodes == merged_nodes(old(self).memory().nodes, other@.nodes, policy),
            is_merged(
                final(self).memory().relationships,
                old(self).memory().relationships,
                other@.relationships,
            ),
            r == merge_report(old(self).memory(), other@, policy),
            final(self).config() == old(self).config(),
            final(self).env() == old(self).env(),
    {
        self.graph.merge(other, policy)
    }

    /// Puts another graph in place of the graph.
    pub fn replace_graph(&mut self, graph: MemoryGraph)
        ensures
            final(self).memory() == graph@,
            final(self).wf() == graph.wf(),
            final(self).config() == old(self).config(),
            final(self).env() == old(self).env(),
    {
        self.graph = graph;
    }

    /// The graph as a snapshot.
    pub fn snapshot(&self) -> (r: GraphSnapshot)
        requires
            self.wf(),
        ensures
            is_snapshot(r@, self.memory()),
    {
        self.graph.snapshot()
    }

    /// Puts the graph of a snapshot in place of the graph, unless the snapshot is none: then
    /// the graph stays.
    pub fn replace_snapshot(&mut self, snapshot: GraphSnapshot) -> (r: Result<
        GraphImportReport,
        PluginError,
    >)
        ensures
            final(self).config() == old(self).config(),
            final(self).env() == old(self).env(),
            match snapshot_refusal(snapshot@) {
                Some(m) => {
                    &&& *final(self) == *old(self)
                    &&& r matches Err(PluginError::Internal(e)) && e@ == m
                },
                None => {
                    &&& final(self).wf()
                    &&& final(self).memory() == graph_of(snapshot@)
                    &&& r matches Ok(report)
                    &&& report.nodes == graph_of(snapshot@).nodes.dom().len()
                    &&& report.relationships == graph_of(snapshot@).relationships.dom().len()
                },
            },
    {
        let staged = MemoryPlugin::stage_snapshot(snapshot)?;
        Ok(self.commit_staged_graph(staged))
    }

    /// The graph of a snapshot, or why the snapshot is refused. The plugin's graph stays as it
    /// is until the staged one is committed.
    pub fn stage_snapshot(snapshot: GraphSnapshot) -> (r: Result<MemoryGraph, PluginError>)
        ensures
            match snapshot_refusal(snapshot@) {
                Some(m) => r matches Err(PluginError::Internal(e)) && e@ == m,
                None => r matches Ok(g) && g.wf() && g@ == graph_of(snapshot@),
            },
    {
        MemoryGraph::from_snapshot(snapshot)
    }

    /// Puts a staged graph in place of the plugin's graph.
    pub fn commit_staged_graph(&mut self, staged: MemoryGraph) -> (r: GraphImportReport)
        requires
            staged.wf(),
        ensures
            final(self).wf(),
            final(self).memory() == staged@,
            final(self).config() == old(self).config(),
            final(self).env() == old(self).env(),
            r.nodes == staged@.nodes.dom().len(),
            r.relationships == staged@.relationships.dom().len(),
    {
        let report = GraphImportReport {
            nodes: staged.len(),
            relationships: staged.relationship_count(),
        };
        self.replace_graph(staged);
        report
    }

    /// Runs one step of the compression.
    fn run_strategy(
        &self,
        strategy: &CompactionStrategy,
        messages: &mut Vec<UnifiedMessage>,
        pin: &mut Option<usize>,
    ) -> (r: Result<Option<CompressionAction>, PluginError>)
        requires
            is_pinned(talk_of(old(messages)@, *old(pin))),
        ensures
            strategy_step(
                self.env(),
                *strategy,
                talk_of(old(messages)@, *old(pin)),
                talk_of(final(messages)@, *final(pin)),
                outcome_of(r),
            ),
            is_pinned(talk_of(final(messages)@, *final(pin))),
    {
        let ghost before = talk_of(messages@, *pin);
        let r = self.take_step(strategy, messages, pin);
        proof {
            lemma_step_keeps_pin(
                self.env(),
                *strategy,
                before,
                talk_of(messages@, *pin),
                outcome_of(r),
            );
        }
        r
    }

    /// Takes one step of the compression.
    fn take_step(
        &self,
        strategy: &CompactionStrategy,
        messages: &mut Vec<UnifiedMessage>,
        pin: &mut Option<usize>,
    ) -> (r: Result<Option<CompressionAction>, PluginError>)
        requires
            is_pinned(talk_of(old(messages)@, *old(pin))),
        ensures
            strategy_step(
                self.env(),
                *strategy,
                talk_of(old(messages)@, *old(pin)),
                talk_of(final(messages)@, *final(pin)),
                outcome_of(r),
            ),
    {
        let ghost before = talk_of(messages@, *pin);
        match strategy {
            CompactionStrategy::Offload { turns } => match &self.store {
                Some(store) => offload_to::<dyn VectorStore>(&**store, *turns, messages, pin),
                None => Ok(None),
            },
            CompactionStrategy::Summarize { turns } => match &self.summarizer {
                Some(summarizer) => {
                    let r = summarize_with::<dyn Summarizer>(&**summarizer, *turns, messages, pin);
                    Ok(r)
                },
                None => Ok(None),
            },
            CompactionStrategy::DeduplicateFileReads { tool_name } => {
                if dedup_reads(messages, tool_name.as_str()) {
                    Ok(Some(CompressionAction::DeduplicatedFileReads))
                } else {
                    Ok(None)
                }
            },
            CompactionStrategy::ClearToolResults { keep_pairs } => {
                if clear_results(messages, *keep_pairs) {
                    Ok(Some(CompressionAction::ClearedToolResults))
                } else {
                    Ok(None)
                }
            },
            CompactionStrategy::ClampOversizedMessages { max_part_tokens } => {
                if clamp_parts(self.encoder, *max_part_tokens, messages) {
                    Ok(Some(CompressionAction::ClampedParts))
                } else {
                    Ok(None)
                }
            },
            CompactionStrategy::SlidingWindow { keep_messages } => {
                assert(before.messages.len() == messages@.len());
                if messages.len() <= *keep_messages {
                    return Ok(None);
                }
                let marks = mark_window(messages, *pin, *keep_messages);
                let stay = mark_protected(messages, *pin);
                let closed = close_sparing(messages, &marks, &stay);
                assert(closed@ == slide_drop(before, *keep_messages as nat));
                remove_marked(messages, &closed);
                *pin = move_pin(*pin, &closed);
                assert(talk_of(messages@, *pin) == dropping(before, closed@));
                Ok(Some(CompressionAction::Slid))
            },
            CompactionStrategy::DropObservations => {
                let marks = mark_observations(messages, self.config.max_drop_system_observations);
                let any = mark_first(&marks).is_some();
                remove_marked(messages, &marks);
                *pin = move_pin(*pin, &marks);
                assert(talk_of(messages@, *pin) == dropping(before, marks@));
                if any {
                    Ok(Some(CompressionAction::DroppedObservations))
                } else {
                    Ok(None)
                }
            },
            CompactionStrategy::DropTurns => {
                let oldest = mark_removable(messages, *pin, self.config.offload_turns);
                if mark_first(&oldest).is_none() {
                    return Ok(None);
                }
                assert(any_marked(oldest@));
                let stay = mark_protected(messages, *pin);
                let marks = close_sparing(messages, &oldest, &stay);
                assert(marks@ == turns_drop(before, self.config.offload_turns as nat));
                remove_marked(messages, &marks);
                *pin = move_pin(*pin, &marks);
                assert(talk_of(messages@, *pin) == dropping(before, marks@));
                Ok(Some(CompressionAction::DroppedTurns))
            },
        }
    }

    /// Runs the steps in order. With a budget, a step that acted is followed by a look at it.
    fn run_pass(
        &self,
        messages: &mut Vec<UnifiedMessage>,
        pin: &mut Option<usize>,
        budget: &Budget,
        actions: &mut Vec<CompressionAction>,
        last_error: &mut Option<String>,
    ) -> (r: Result<(), PluginError>)
        requires
            is_pinned(talk_of(old(messages)@, *old(pin))),
        ensures
            is_pinned(talk_of(final(messages)@, *final(pin))),
            exists|t: PassState|
                #[trigger] pass_reached(
                    self.env(),
                    *budget,
                    self.env().strategies.len(),
                    PassState {
                        talk: talk_of(old(messages)@, *old(pin)),
                        actions: old(actions)@,
                        last_error: optional_text(*old(last_error)),
                        stopped: false,
                        failed: false,
                        ended: false,
                    },
                    t,
                ) && t.talk == talk_of(final(messages)@, *final(pin)) && t.actions
                    == final(actions)@ && t.last_error == optional_text(*final(last_error))
                    && t.failed == (r is Err) && !t.ended && (r matches Err(e)
                    ==> is_untokenizable(e)),
    {
        let ghost env = self.env();
        let ghost start = PassState {
            talk: talk_of(messages@, *pin),
            actions: actions@,
            last_error: optional_text(*last_error),
            stopped: false,
            failed: false,
            ended: false,
        };
        let ghost mut now = start;
        let mut done: Option<PluginError> = None;
        let mut stopped = false;
        let mut i: usize = 0;
        while i < self.config.strategies.len()
            invariant
                env == self.env(),
                i <= self.config.strategies@.len(),
                pass_reached(env, *budget, i as nat, start, now),
                now.talk == talk_of(messages@, *pin),
                is_pinned(now.talk),
                now.actions == actions@,
                now.last_error == optional_text(*last_error),
                now.stopped == stopped,
                now.failed == (done is Some),
                !now.ended,
                done matches Some(e) ==> is_untokenizable(e),
            decreases self.config.strategies@.len() - i,
        {
            let ghost s = now;
            if !stopped && done.is_none() {
                let outcome = self.run_strategy(&self.config.strategies[i], messages, pin);
                let ghost after = talk_of(messages@, *pin);
                let ghost how = outcome_of(outcome);
                assert(strategy_step(env, env.strategies[i as int], s.talk, after, how));
                match outcome {
                    Ok(Some(action)) => {
                        actions.push(action);
                        proof {
                            now = PassState {
                                talk: after,
                                actions: s.actions.push(action),
                                ..s
                            };
                        }
                        let limited = match budget {
                            Budget::Unlimited => false,
                            _ => true,
                        };
                        if limited {
                            match self.count_tokens(messages.as_slice()) {
                                Ok(used) => {
                                    stopped = !self.over_budget(messages.as_slice(), used, budget);
                                    assert(after.messages.len() == messages@.len());
                                },
                                Err(e) => {
                                    done = Some(e);
                                },
                            }
                        }
                        proof {
                            now = PassState { stopped, failed: done is Some, ..now };
                        }
                    },
                    Ok(None) => {
                        proof {
                            now = PassState { talk: after, ..s };
                        }
                    },
                    Err(e) => {
                        *last_error = Some(e.to_text());
                        proof {
                            now = PassState { talk: after, last_error: Some(error_text(e)), ..s };
                        }
                    },
                }
                assert(pass_step(env, *budget, env.strategies[i as int], s, now));
            }
            proof {
                lemma_pass_more(env, *budget, i as nat, start, s, now);
            }
            i = i + 1;
        }
        match done {
            Some(e) => Err(e),
            None => Ok(()),
        }
    }

    /// Compresses messages towards a budget.
    fn compress_inner(&self, messages: &mut Vec<UnifiedMessage>, budget: &Budget) -> (r: Result<
        CompressionReport,
        PluginError,
    >)
        ensures
            compressed(
                self.env(),
                *budget,
                message_views(old(messages)@),
                message_views(final(messages)@),
                r,
            ),
    {
        let ghost env = self.env();
        let ghost before = message_views(messages@);
        let tokens_before: u32 = self.count_tokens(messages.as_slice())?;
        let mut actions: Vec<CompressionAction> = Vec::new();
        let mut last_error: Option<String> = None;
        let limited = match budget {
            Budget::Unlimited => false,
            _ => true,
        };
        let ghost start = pass_start(before);
        let ghost mut now = start;
        let mut pin: Option<usize> = last_with(messages, MessageRole::User);
        proof {
            lemma_recent_pin(messages@, pin);
        }
        let mut failed: Option<PluginError> = None;
        let mut ended = false;
        let mut pass: usize = 0;
        assert(actions@ =~= start.actions);
        while pass < 4 && !ended
            invariant
                env == self.env(),
                limited == (*budget != Budget::Unlimited),
                pass <= 4,
                rounds(env, *budget, pass as nat, start, now),
                now.talk == talk_of(messages@, pin),
                is_pinned(now.talk),
                now.actions == actions@,
                now.last_error == optional_text(last_error),
                now.failed == (failed is Some),
                now.ended == ended,
                failed is Some ==> ended,
                failed matches Some(e) ==> is_untokenizable(e),
                pass == 0 ==> !ended,
            decreases 4 - pass,
        {
            let ghost s = now;
            let before_len: usize = messages.len();
            let before_actions: usize = actions.len();
            let ran = self.run_pass(
                messages,
                &mut pin,
                budget,
                &mut actions,
                &mut last_error,
            );
            let ghost from = PassState { stopped: false, ..s };
            assert(from == PassState {
                talk: s.talk,
                actions: s.actions,
                last_error: s.last_error,
                stopped: false,
                failed: false,
                ended: false,
            });
            let ghost u = choose|t: PassState|
                #[trigger] pass_reached(env, *budget, env.strategies.len(), from, t) && t.talk
                    == talk_of(messages@, pin) && t.actions == actions@ && t.last_error
                    == optional_text(last_error) && t.failed == (ran is Err) && !t.ended;
            let progress = actions.len() > before_actions || messages.len() != before_len;
            assert(u.talk.messages.len() == messages@.len());
            assert(s.talk.messages.len() == before_len);
            let mut over = false;
            match ran {
                Err(e) => {
                    failed = Some(e);
                },
                Ok(_) => {
                    if limited {
                        match self.count_tokens(messages.as_slice()) {
                            Ok(used) => {
                                over = self.over_budget(messages.as_slice(), used, budget);
                            },
                            Err(e) => {
                                failed = Some(e);
                            },
                        }
                    }
                },
            }
            ended = !(over && progress);
            proof {
                assert(ended == !goes_on(env, *budget, s, u));
                now = PassState {
                    failed: u.failed || (*budget != Budget::Unlimited && measured(
                        env.encoder,
                        u.talk.messages,
                    ) is None),
                    ended,
                    ..u
                };
                assert(round(env, *budget, s, now));
                lemma_round_more(env, *budget, pass as nat, start, s, now);
            }
            pass = pass + 1;
        }
        assert(compression_ends(env, *budget, before, pass as nat, now));
        if let Some(e) = failed {
            return Err(e);
        }
        let tokens_after: u32 = self.count_tokens(messages.as_slice())?;
        Ok(CompressionReport { tokens_before, tokens_after, actions, last_error })
    }

    /// Compresses messages: runs every step once.
    pub fn compress(&self, messages: &mut Vec<UnifiedMessage>) -> (r: Result<
        CompressionReport,
        PluginError,
    >)
        ensures
            compressed(
                self.env(),
                Budget::Unlimited,
                message_views(old(messages)@),
                message_views(final(messages)@),
                r,
            ),
    {
        self.compress_inner(messages, &Budget::Unlimited)
    }

    /// How much of the window a request uses.
    pub fn measure(&self, req: &UnifiedRequest) -> (r: Result<ContextUsage, PluginError>)
        ensures
            match measured(self.env().encoder, req@.messages) {
                None => r matches Err(e) && is_untokenizable(e),
                Some(used) => {
                    &&& r matches Ok(usage)
                    &&& usage.used_tokens == used
                    &&& self.may_have_window(req@.model, (usage.window_tokens, usage.resolved))
                },
            },
    {
        let used_tokens: u32 = self.count_tokens(req.messages.as_slice())?;
        let (window_tokens, resolved) = self.resolved_window(req.model.as_str());
        Ok(ContextUsage { used_tokens, window_tokens, resolved })
    }

    /// Tells the observers of a reading, up to the first that objects.
    pub fn announce(&self, usage: &ContextUsage) -> (r: Result<(), PluginError>)
        ensures
            is_told::<dyn ContextUsageObserver>(self.config().observers@, *usage, r),
    {
        notify::<dyn ContextUsageObserver>(&self.config.observers, usage)
    }

    /// The graph as requests carry it, where there is one.
    pub open spec fn rendered(&self, c: GraphContextConfig) -> Option<Seq<char>> {
        if self.memory().nodes.dom().len() == 0 {
            None
        } else {
            Some(
                render_text(self.memory(), c.max_nodes as nat, c.max_relationships as nat),
            )
        }
    }

    /// What becomes of the messages of a request after the compression.
    pub open spec fn carried(&self, messages: Seq<MessageView>) -> Seq<MessageView> {
        match self.config().graph_context {
            Some(c) => with_graph(messages, self.rendered(c)),
            None => messages,
        }
    }

    /// What becomes of the messages of a request before the graph is put in.
    pub open spec fn compacted(
        &self,
        before: Seq<MessageView>,
        usage: ContextUsage,
        reading: WindowReading,
        after: Seq<MessageView>,
        r: Result<(), PluginError>,
    ) -> bool {
        let warned = with_warning(before, reading.gauge, usage.window_tokens);
        let budget = self.budgeted(reading.fraction_tokens);
        if exceeds_budget(budget, warned.len(), usage.used_tokens) {
            exists|c: Result<CompressionReport, PluginError>|
                #[trigger] compressed(self.env(), budget, warned, after, c) && match c {
                    Err(e) => r == Err::<(), _>(e),
                    Ok(_) => r is Ok,
                }
        } else {
            r is Ok && after == warned
        }
    }

    /// What becomes of the messages of a request.
    pub open spec fn prepared(
        &self,
        before: Seq<MessageView>,
        usage: ContextUsage,
        reading: WindowReading,
        after: Seq<MessageView>,
        r: Result<(), PluginError>,
    ) -> bool {
        exists|mid: Seq<MessageView>|
            #[trigger] self.compacted(before, usage, reading, mid, r) && after == (if r is Ok {
                self.carried(mid)
            } else {
                mid
            })
    }

    /// What becomes of a request of which a reading was taken: refused by an observer and left as
    /// it was, or made ready.
    pub open spec fn requested(
        &self,
        before: RequestView,
        usage: ContextUsage,
        reading: WindowReading,
        after: RequestView,
        r: Result<(), PluginError>,
    ) -> bool {
        &&& measured(self.env().encoder, before.messages) == Some(usage.used_tokens)
        &&& self.may_have_window(before.model, (usage.window_tokens, usage.resolved))
        &&& {
            ||| r is Err && is_told::<dyn ContextUsageObserver>(
                self.config().observers@,
                usage,
                r,
            ) && after == before
            ||| is_told::<dyn ContextUsageObserver>(self.config().observers@, usage, Ok(()))
                && self.prepared(before.messages, usage, reading, after.messages, r) && after
                == (RequestView { messages: after.messages, ..before })
        }
    }

    /// Warns the model near the limit, and compresses the conversation where it is over its
    /// budget.
    pub fn compact(
        &self,
        req: &mut UnifiedRequest,
        usage: &ContextUsage,
        reading: &WindowReading,
    ) -> (r: Result<(), PluginError>)
        ensures
            self.compacted(old(req)@.messages, *usage, *reading, final(req)@.messages, r),
            final(req)@ == (RequestView { messages: final(req)@.messages, ..old(req)@ }),
    {
        let mut messages: Vec<UnifiedMessage> = Vec::new();
        std::mem::swap(&mut messages, &mut req.messages);
        inject_warning(&mut messages, &reading.gauge, usage.window_tokens);
        let ghost warned = message_views(messages@);
        assert(warned.len() == messages@.len());
        let budget = self.budget(reading.fraction_tokens);
        let mut r: Result<(), PluginError> = Ok(());
        if self.over_budget(messages.as_slice(), usage.used_tokens, &budget) {
            let c = self.compress_inner(&mut messages, &budget);
            assert(compressed(self.env(), budget, warned, message_views(messages@), c));
            if let Err(e) = c {
                r = Err(e);
            }
        }
        req.messages = messages;
        r
    }

    /// Puts the graph into a request, where requests carry it.
    pub fn carry(&self, req: &mut UnifiedRequest)
        requires
            self.wf(),
        ensures
            final(req)@ == (RequestView {
                messages: self.carried(old(req)@.messages),
                ..old(req)@
            }),
    {
        if let Some(config) = &self.config.graph_context {
            let render = if self.graph.is_empty() {
                None
            } else {
                Some(self.graph.render(config.max_nodes, config.max_relationships))
            };
            inject_graph(&mut req.messages, render);
        }
    }

    /// Makes a request ready: warns the model near the limit, compresses the conversation where
    /// it is over its budget, and puts the graph into it.
    pub fn prepare(
        &self,
        req: &mut UnifiedRequest,
        usage: &ContextUsage,
        reading: &WindowReading,
    ) -> (r: Result<(), PluginError>)
        requires
            self.wf(),
        ensures
            self.prepared(old(req)@.messages, *usage, *reading, final(req)@.messages, r),
            final(req)@ == (RequestView { messages: final(req)@.messages, ..old(req)@ }),
    {
        let r = self.compact(req, usage, reading);
        assert(self.compacted(old(req)@.messages, *usage, *reading, req@.messages, r));
        if r.is_ok() {
            self.carry(req);
        }
        r
    }

    /// The hook of a request: measures it, tells the observers, and makes it ready. What the
    /// ratios of the measure come to is what `read` says.
    pub fn on_request<F: Fn(&ContextUsage) -> WindowReading>(
        &self,
        req: &mut UnifiedRequest,
        read: F,
    ) -> (r: Result<(), PluginError>)
        requires
            self.wf(),
            forall|usage: &ContextUsage| call_requires(read, (usage,)),
        ensures
            match measured(self.env().encoder, old(req)@.messages) {
                None => (r matches Err(e) && is_untokenizable(e)) && final(req)@ == old(req)@,
                Some(_) => exists|usage: ContextUsage, reading: WindowReading|
                    call_ensures(read, (&usage,), reading) && #[trigger] self.requested(
                        old(req)@,
                        usage,
                        reading,
                        final(req)@,
                        r,
                    ),
            },
    {
        let usage = self.measure(req)?;
        let reading = read(&usage);
        if let Err(e) = self.announce(&usage) {
            let r: Result<(), PluginError> = Err(e);
            assert(self.requested(old(req)@, usage, reading, req@, r));
            return r;
        }
        let r = self.prepare(req, &usage, &reading);
        assert(self.requested(old(req)@, usage, reading, req@, r));
        r
    }
}

/// Every one of the first observers took note of the reading.
pub open spec fn all_told<O: ContextUsageObserver + ?Sized>(
    observers: Seq<Arc<O>>,
    usage: ContextUsage,
    n: int,
) -> bool {
    forall|i: int|
        0 <= i < n ==> call_ensures(O::observe, (&*#[trigger] observers[i], &usage), Ok(()))
}

/// What telling observers of a reading may come to: all took note, or all before the one that
/// objected did.
pub open spec fn is_told<O: ContextUsageObserver + ?Sized>(
    observers: Seq<Arc<O>>,
    usage: ContextUsage,
    r: Result<(), PluginError>,
) -> bool {
    match r {
        Ok(_) => all_told(observers, usage, observers.len() as int),
        Err(e) => exists|i: int|
            0 <= i < observers.len() && all_told(observers, usage, i) && call_ensures(
                O::observe,
                (&*#[trigger] observers[i], &usage),
                Err(e),
            ),
    }
}

/// Tells the observers in turn, up to the first that objects.
pub fn notify<O: ContextUsageObserver + ?Sized>(observers: &Vec<Arc<O>>, usage: &ContextUsage) -> (r:
    Result<(), PluginError>)
    ensures
        is_told(observers@, *usage, r),
{
    let mut i: usize = 0;
    while i < observers.len()
        invariant
            i <= observers@.len(),
            all_told(observers@, *usage, i as int),
        decreases observers@.len() - i,
    {
        match observers[i].observe(usage) {
            Ok(u) => {
                assert(u == ());
            },
            Err(e) => {
                assert(call_ensures(O::observe, (&*observers@[i as int], usage), Err(e)));
                return Err(e);
            },
        }
        i = i + 1;
    }
    Ok(())
}

} // verus!
