//! What becomes of a request: what is handed away, what is put in, and what stays.

use crate::error::PluginError;
use crate::plugins::memory::compaction::{
    answers, answers_dropped, any_marked, calls_tool, dropped_call, is_first_mark, lemma_paired,
    message_calls, only, paired, protected, removable_turns, returns_result, without,
};
use crate::plugins::memory::step_laws::{law_messages_go_or_stay, lemma_tally, tally};
use crate::plugins::memory::{
    chosen_window, dropping, first_text, graph_index, graph_slot, holds_graph, is_default_menu,
    is_offloaded, is_summary, is_summed_up, summarized, system_index, turns_drop, with_graph,
    with_warning, CompactionStrategy, CompressionAction, ContextUsage, MemoryConfig, MemoryPlugin,
    Outcome, Summarizer, Talk, VectorStore, WindowReading, SESSION_HINT,
};
use crate::request::RequestView;
use crate::text::has_prefix;
use crate::tokenize::named_encoder;
use crate::types::{
    message_views, text_message, BlockView, MessageRole, MessageView, UnifiedMessage,
};
use std::sync::Arc;
use vstd::prelude::*;

verus! {

/// Two parts of a conversation, split by marks, are all of it.
pub open spec fn is_split(
    messages: Seq<MessageView>,
    marks: Seq<bool>,
    gone: Seq<MessageView>,
    kept: Seq<MessageView>,
) -> bool {
    &&& marks.len() == messages.len()
    &&& gone.len() == tally(marks)
    &&& gone.len() + kept.len() == messages.len()
    &&& forall|i: int|
        0 <= i < messages.len() ==> if #[trigger] marks[i] {
            gone[tally(marks.take(i)) as int] == messages[i]
        } else {
            kept[i - tally(marks.take(i))] == messages[i]
        }
}

/// What goes and what stays are all of a conversation.
proof fn lemma_split(messages: Seq<MessageView>, marks: Seq<bool>)
    requires
        marks.len() == messages.len(),
    ensures
        is_split(messages, marks, only(messages, marks), without(messages, marks)),
{
    if messages.len() > 0 {
        law_messages_go_or_stay(messages, marks, 0);
    } else {
        assert(only(messages, marks).len() == 0);
        assert(without(messages, marks).len() == 0);
    }
    assert forall|i: int| 0 <= i < messages.len() implies if #[trigger] marks[i] {
        only(messages, marks)[tally(marks.take(i)) as int] == messages[i]
    } else {
        without(messages, marks)[i - tally(marks.take(i))] == messages[i]
    } by {
        law_messages_go_or_stay(messages, marks, i);
    }
}

/// What goes takes in the turns that were chosen.
proof fn lemma_turns(t: Talk, turns: nat)
    ensures
        turns_drop(t, turns).len() == t.messages.len(),
        forall|i: int|
            0 <= i < t.messages.len() && #[trigger] removable_turns(t.messages, t.pin, turns)[i]
                ==> turns_drop(t, turns)[i],
{
    let chosen = removable_turns(t.messages, t.pin, turns);
    lemma_paired(t.messages, chosen, protected(t.messages, t.pin));
}

/// What is offloaded is handed to the store, whole and in order, before it goes; the rest stays.
/// Where the store fails, nothing goes, and its error is told.
pub proof fn law_offloaded_turns_are_stored<S: VectorStore + ?Sized>(
    store: &S,
    turns: nat,
    before: Talk,
    after: Talk,
    outcome: Outcome,
)
    requires
        is_offloaded(store, turns, before, after, outcome),
    ensures
        outcome is Acted ==> exists|marks: Seq<bool>, handed: &[UnifiedMessage]|
            #![trigger is_split(before.messages, marks, message_views(handed@), after.messages)]
            {
                &&& is_split(before.messages, marks, message_views(handed@), after.messages)
                &&& call_ensures(
                    S::store_turns,
                    (store, "cuca-memory", handed),
                    Ok(()),
                )
                &&& forall|i: int|
                    0 <= i < before.messages.len() && #[trigger] removable_turns(
                        before.messages,
                        before.pin,
                        turns,
                    )[i] ==> marks[i]
            },
        outcome is Failed ==> after == before && exists|e: PluginError, handed: &[UnifiedMessage]|
            #[trigger] call_ensures(
                S::store_turns,
                (store, "cuca-memory", handed),
                Err(e),
            ),
        outcome is Idle ==> after == before,
        any_marked(removable_turns(before.messages, before.pin, turns))
            ==> !(outcome is Idle),
{
    let marks = turns_drop(before, turns);
    lemma_turns(before, turns);
    lemma_split(before.messages, marks);
    let gone = only(before.messages, marks);
    match outcome {
        Outcome::Acted(_) => {
            let handed = choose|handed: &[UnifiedMessage]|
                message_views(handed@) == gone && #[trigger] call_ensures(
                    S::store_turns,
                    (store, SESSION_HINT, handed),
                    Ok(()),
                );
            assert(is_split(before.messages, marks, message_views(handed@), after.messages));
        },
        _ => {},
    }
}

/// What is summed up is handed to the summarizer, whole and in order, and goes; one message of a
/// user with the summary stands where the first of it stood.
pub proof fn law_summaries_stand_for_what_went<S: Summarizer + ?Sized>(
    summarizer: &S,
    turns: nat,
    before: Talk,
    after: Talk,
    outcome: Outcome,
)
    requires
        is_summed_up(summarizer, turns, before, after, outcome),
    ensures
        outcome is Idle ==> after == before && !any_marked(
            removable_turns(before.messages, before.pin, turns),
        ),
        outcome is Acted ==> outcome == Outcome::Acted(CompressionAction::Summarized) && exists|
            marks: Seq<bool>,
            first: int,
            handed: &[UnifiedMessage],
            text: String,
        |
            #![trigger is_first_mark(marks, first), call_ensures(
                S::summarize,
                (summarizer, handed),
                text,
            )]
            {
                &&& is_first_mark(marks, first)
                &&& first < after.messages.len()
                &&& after.messages[first].role == MessageRole::User
                &&& after.messages[first].content == seq![BlockView::Text(text@)]
                &&& is_split(
                    before.messages,
                    marks,
                    message_views(handed@),
                    after.messages.remove(first),
                )
                &&& call_ensures(S::summarize, (summarizer, handed), text)
            },
{
    let marks = turns_drop(before, turns);
    lemma_turns(before, turns);
    lemma_split(before.messages, marks);
    let gone = only(before.messages, marks);
    let kept = without(before.messages, marks);
    if outcome is Acted {
        let summary = choose|summary: Seq<char>|
            is_summary(summarizer, gone, summary)
                && after == #[trigger] summarized(before, marks, summary);
        let (handed, text) = choose|handed: &[UnifiedMessage], text: String|
            message_views(handed@) == gone && text@ == summary && #[trigger] call_ensures(
                S::summarize,
                (summarizer, handed),
                text,
            );
        let chosen = removable_turns(before.messages, before.pin, turns);
        let k = choose|k: int| 0 <= k < chosen.len() && #[trigger] chosen[k];
        assert(marks[k]);
        lemma_first(marks, k);
        let first = choose|i: int| is_first_mark(marks, i);
        lemma_none_before(marks, first);
        law_messages_go_or_stay(before.messages, marks, first);
        assert(first <= kept.len()) by {
            lemma_kept_before(before.messages, marks, first);
        }
        assert(after.messages == kept.insert(
            first,
            text_message(MessageRole::User, summary),
        ));
        assert(after.messages.remove(first) =~= kept);
        assert(is_first_mark(marks, first));
    }
}

/// There is a first mark.
proof fn lemma_first(marks: Seq<bool>, k: int)
    requires
        0 <= k < marks.len(),
        marks[k],
    ensures
        exists|i: int| is_first_mark(marks, i),
    decreases k,
{
    if exists|j: int| 0 <= j < k && #[trigger] marks[j] {
        let j = choose|j: int| 0 <= j < k && #[trigger] marks[j];
        lemma_first(marks, j);
    } else {
        assert(is_first_mark(marks, k));
    }
}

/// No mark is set before the first.
proof fn lemma_none_before(marks: Seq<bool>, n: int)
    requires
        0 <= n <= marks.len(),
        forall|k: int| 0 <= k < n ==> !#[trigger] marks[k],
    ensures
        tally(marks.take(n)) == 0,
    decreases n,
{
    if n > 0 {
        lemma_none_before(marks, n - 1);
        assert(marks.take(n).drop_last() =~= marks.take(n - 1));
        assert(marks.take(n).last() == marks[n - 1]);
    }
}

/// What stands before the first mark is kept.
proof fn lemma_kept_before(messages: Seq<MessageView>, marks: Seq<bool>, first: int)
    requires
        marks.len() == messages.len(),
        is_first_mark(marks, first),
    ensures
        first <= without(messages, marks).len(),
{
    if first > 0 {
        lemma_none_before(marks, first - 1);
        law_messages_go_or_stay(messages, marks, first - 1);
    }
}

/// Without further ado the gentle steps come first: what can be read again is emptied and cut
/// before anything slides out, is stored, is summed up, or goes for good.
pub proof fn law_the_menu_goes_from_gentle_to_harsh(v: Seq<CompactionStrategy>)
    requires
        is_default_menu(v),
    ensures
        v.len() == 8,
        v[0] matches CompactionStrategy::DeduplicateFileReads { tool_name } && tool_name@
            == "read_file"@,
        v[1] matches CompactionStrategy::ClearToolResults { keep_pairs } && keep_pairs == 3,
        v[2] matches CompactionStrategy::ClampOversizedMessages { max_part_tokens }
            && max_part_tokens == 4096,
        v[3] matches CompactionStrategy::SlidingWindow { keep_messages } && keep_messages == 40,
        v[4] matches CompactionStrategy::Offload { turns } && turns == 10,
        v[5] matches CompactionStrategy::Summarize { turns } && turns == 10,
        v[6] is DropObservations,
        v[7] is DropTurns,
{
}

/// Settings are accepted exactly where they do not ask for two budgets on tokens, and name an
/// encoder that there is.
pub proof fn law_settings_that_fit_are_accepted(
    c: MemoryConfig,
    summarizer: Option<Arc<dyn Summarizer>>,
    store: Option<Arc<dyn VectorStore>>,
    r: Result<MemoryPlugin, PluginError>,
)
    requires
        MemoryPlugin::made(c, summarizer, store, r),
    ensures
        r is Ok <==> !(c.max_tokens is Some && c.max_fraction is Some) && named_encoder(
            c.encoder_name@,
        ) is Some,
        r matches Ok(plugin) ==> plugin.config() == c,
{
}

/// The window that was found for the model counts before the one that was set, and it is said
/// which of them it is.
pub proof fn law_found_windows_come_first(
    plugin: MemoryPlugin,
    model: Seq<char>,
    found: u32,
    set: u32,
)
    ensures
        chosen_window(Some(found), set) == (found, true),
        chosen_window(None, set) == (set, false),
        plugin.config().context_window_resolver is None ==> !plugin.may_have_window(
            model,
            (found, true),
        ),
        plugin.config().context_window_resolver is None ==> (plugin.may_have_window(
            model,
            (set, false),
        ) <==> set == plugin.config().context_window_tokens),
{
    let none: Option<u32> = None;
    assert(chosen_window(none, plugin.config().context_window_tokens) == (
        plugin.config().context_window_tokens,
        false,
    ));
}

/// A conversation within its budget is left as it is, but for the warning; only one that is over
/// it is compressed.
pub proof fn law_conversations_within_budget_are_left(
    plugin: MemoryPlugin,
    before: Seq<MessageView>,
    usage: ContextUsage,
    reading: WindowReading,
    after: Seq<MessageView>,
    r: Result<(), PluginError>,
)
    requires
        plugin.compacted(before, usage, reading, after, r),
    ensures
        ({
            let warned = with_warning(before, reading.gauge, usage.window_tokens);
            let c = plugin.config();
            let over = match (c.max_messages, c.max_tokens, c.max_fraction) {
                (Some(cap), _, _) => warned.len() > cap,
                (None, Some(cap), _) => usage.used_tokens >= cap,
                (None, None, Some(_)) => usage.used_tokens >= reading.fraction_tokens,
                (None, None, None) => false,
            };
            !over ==> r is Ok && after == warned
        }),
{
}

/// Of a request only the messages ever change.
pub proof fn law_only_messages_change(
    plugin: MemoryPlugin,
    before: RequestView,
    usage: ContextUsage,
    reading: WindowReading,
    after: RequestView,
    r: Result<(), PluginError>,
)
    requires
        plugin.requested(before, usage, reading, after, r),
    ensures
        after.model == before.model,
        after.provider == before.provider,
        after.temperature == before.temperature,
        after.max_tokens == before.max_tokens,
        after.stream == before.stream,
        after.tools == before.tools,
        after.thinking == before.thinking,
        after.prompt_cache == before.prompt_cache,
{
}

/// The first text of a message.
proof fn lemma_first_text(content: Seq<BlockView>, from: int)
    requires
        0 <= from <= content.len(),
    ensures
        match first_text(content, from) {
            Some(text) => exists|b: int|
                from <= b < content.len() && content[b] == BlockView::Text(text) && forall|k: int|
                    from <= k < b ==> !(#[trigger] content[k] is Text),
            None => forall|k: int| from <= k < content.len() ==> !(#[trigger] content[k] is Text),
        },
    decreases content.len() - from,
{
    if from < content.len() && !(content[from] is Text) {
        lemma_first_text(content, from + 1);
    }
}

/// A message carries a graph exactly where the first of its texts starts with the marker.
pub proof fn law_graphs_are_found_by_their_marker(m: MessageView, b: int, text: Seq<char>)
    requires
        0 <= b < m.content.len(),
        m.content[b] == BlockView::Text(text),
        forall|k: int| 0 <= k < b ==> !(#[trigger] m.content[k] is Text),
    ensures
        holds_graph(m) <==> has_prefix(text, "CUCA graph memory:"@),
{
    lemma_first_text(m.content, 0);
    assert(m.content[b] is Text);
    let found = first_text(m.content, 0)->0;
    let a = choose|a: int|
        0 <= a < m.content.len() && m.content[a] == BlockView::Text(found) && forall|k: int|
            0 <= k < a ==> !(#[trigger] m.content[k] is Text);
    assert(m.content[a] is Text);
    assert(a == b);
}

/// Where the first system message stands.
proof fn lemma_system_index(messages: Seq<MessageView>, from: int)
    requires
        0 <= from <= messages.len(),
    ensures
        match system_index(messages, from) {
            Some(i) => from <= i < messages.len() && messages[i].role == MessageRole::System
                && forall|k: int|
                from <= k < i ==> (#[trigger] messages[k]).role != MessageRole::System,
            None => forall|k: int|
                from <= k < messages.len() ==> (#[trigger] messages[k]).role
                    != MessageRole::System,
        },
    decreases messages.len() - from,
{
    if from < messages.len() && messages[from].role != MessageRole::System {
        lemma_system_index(messages, from + 1);
    }
}

/// A graph that a conversation does not carry yet is put in as a system message, right behind the
/// first one or, where there is none, in front; all else stays in order.
pub proof fn law_graphs_stand_behind_the_first_system_message(
    messages: Seq<MessageView>,
    text: Seq<char>,
)
    requires
        graph_index(messages, 0) is None,
    ensures
        ({
            let after = with_graph(messages, Some(text));
            let at = graph_slot(messages);
            &&& 0 <= at < after.len()
            &&& after.remove(at) == messages
            &&& after[at].role == MessageRole::System
            &&& after[at].content == seq![BlockView::Text(text)]
            &&& at > 0 ==> after[at - 1].role == MessageRole::System
            &&& forall|k: int|
                0 <= k < at - 1 ==> (#[trigger] messages[k]).role != MessageRole::System
            &&& at == 0 ==> forall|k: int|
                0 <= k < messages.len() ==> (#[trigger] messages[k]).role != MessageRole::System
        }),
{
    lemma_system_index(messages, 0);
    let after = with_graph(messages, Some(text));
    let at = graph_slot(messages);
    assert(after.remove(at) =~= messages);
}

/// What answers a call goes with it: a message of a tool under its id, and a message that has a
/// result under its id, unless it is spared.
pub proof fn law_answers_go_with_their_call(
    messages: Seq<MessageView>,
    marks: Seq<bool>,
    spared: Seq<bool>,
    i: int,
    j: int,
    b: int,
    k: int,
)
    requires
        marks.len() == messages.len(),
        spared.len() == messages.len(),
        0 <= i < messages.len(),
        0 <= j < messages.len(),
        0 <= b < messages[j].content.len(),
        messages[j].content[b] is ToolCall,
        paired(messages, marks, spared)[j],
        !spared[i],
        ({
            let id = messages[j].content[b]->id;
            ||| messages[i].role == MessageRole::Tool && messages[i].tool_call_id == Some(id)
            ||| 0 <= k < messages[i].content.len() && messages[i].content[k] is ToolResult
                && messages[i].content[k]->ToolResult_tool_call_id == id
        }),
    ensures
        paired(messages, marks, spared)[i],
{
    let gone = paired(messages, marks, spared);
    lemma_paired(messages, marks, spared);
    let id = messages[j].content[b]->id;
    assert(calls_tool(messages[j].content[b], id));
    assert(message_calls(messages[j], id));
    assert(dropped_call(messages, gone, id));
    if 0 <= k < messages[i].content.len() && messages[i].content[k] is ToolResult
        && messages[i].content[k]->ToolResult_tool_call_id == id {
        assert(returns_result(messages[i].content[k], id));
    }
    assert(answers(messages[i], id));
    assert(answers_dropped(messages, gone, i));
}

/// Whatever goes, the pin stays on the message that it was on.
pub proof fn law_the_pin_stays_on_its_message(
    t: Talk,
    marks: Seq<bool>,
    p: int,
    summary: Seq<char>,
)
    requires
        marks.len() == t.messages.len(),
        t.pin == Some(p),
        0 <= p < t.messages.len(),
        !marks[p],
    ensures
        ({
            let kept = dropping(t, marks);
            kept.pin matches Some(q) && 0 <= q < kept.messages.len() && kept.messages[q]
                == t.messages[p]
        }),
        any_marked(marks) ==> {
            let told = summarized(t, marks, summary);
            told.pin matches Some(q) && 0 <= q < told.messages.len() && told.messages[q]
                == t.messages[p]
        },
{
    law_messages_go_or_stay(t.messages, marks, p);
    lemma_tally(marks, p);
    lemma_tally_within(marks, p);
    if any_marked(marks) {
        let k = choose|k: int| 0 <= k < marks.len() && #[trigger] marks[k];
        lemma_first(marks, k);
        let first = choose|i: int| is_first_mark(marks, i);
        lemma_kept_before(t.messages, marks, first);
    }
}

/// No more marks are set than there are.
proof fn lemma_tally_within(marks: Seq<bool>, n: int)
    requires
        0 <= n <= marks.len(),
    ensures
        tally(marks.take(n)) <= n,
    decreases n,
{
    if n > 0 {
        lemma_tally_within(marks, n - 1);
        assert(marks.take(n).drop_last() =~= marks.take(n - 1));
    }
}

} // verus!
