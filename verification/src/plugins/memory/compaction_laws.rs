//! Laws of the compression and of what requests carry.

use crate::error::PluginError;
use crate::plugins::memory::compaction::{
    answers, answers_dropped, any_marked, blank_all, blank_at, blank_output, blank_text,
    clamped_text, dedup_all, dropped_call, first_of, in_bounds, is_first_mark,
    last_of, lemma_blank_all_shape, lemma_blank_shape, lemma_last_unique, lemma_moved,
    lemma_paired, lemma_result_places, message_calls, moved, observations_drop, paired, part_of,
    protected, reads_from, removable_turns, result_block, result_place, result_places, same_shape,
    with_part,
};
use crate::plugins::memory::graph::{render_text, GraphView, GRAPH_RENDER_MARKER};
use crate::plugins::memory::{
    compressed, compression_ends, dropping, exceeds_budget, first_text, graph_index, graph_slot,
    holds_graph, is_pinned, lemma_kept_head, lemma_protected_stay, nth_step, pass_reached,
    pass_start, pass_step, recent_pin, round, rounds, slide_drop, strategy_step, summarized,
    system_index, turns_drop, window_warning, with_graph, with_warning, Budget,
    CompactionStrategy, CompressionReport, ContextUsage, MemoryEnv, MemoryPlugin, Outcome,
    PassState, Talk, WindowGauge, WindowReading, WARNING_MARKER,
};
use crate::request::RequestView;
use crate::text::{has_prefix, has_substring};
use crate::types::{
    holds_marker, is_marked, text_message, BlockView, MessageRole, MessageView,
};
use vstd::prelude::*;

verus! {

/// Where something is marked, something is marked first.
proof fn lemma_any_has_first(marks: Seq<bool>, i: int)
    requires
        any_marked(marks),
        0 <= i <= marks.len(),
        forall|k: int| 0 <= k < i ==> !#[trigger] marks[k],
    ensures
        exists|k: int| is_first_mark(marks, k),
    decreases marks.len() - i,
{
    if i < marks.len() && marks[i] {
        assert(is_first_mark(marks, i));
    } else if i < marks.len() {
        lemma_any_has_first(marks, i + 1);
    } else {
        let k = choose|k: int| 0 <= k < marks.len() && #[trigger] marks[k];
        assert(!marks[k]);
    }
}

/// A step removes messages.
pub open spec fn removes(strategy: CompactionStrategy) -> bool {
    strategy is Offload || strategy is Summarize || strategy is SlidingWindow
        || strategy is DropObservations || strategy is DropTurns
}

/// No tool result outlives its call: of a message that goes, every message that holds the result
/// of one of its calls goes too, unless it is spared.
pub proof fn law_results_do_not_outlive_their_calls(
    messages: Seq<MessageView>,
    marks: Seq<bool>,
    spared: Seq<bool>,
    gone: int,
    stays: int,
    id: Seq<char>,
)
    requires
        0 <= gone < messages.len(),
        0 <= stays < messages.len(),
        paired(messages, marks, spared)[gone],
        !paired(messages, marks, spared)[stays],
        !spared[stays],
        message_calls(messages[gone], id),
    ensures
        !answers(messages[stays], id),
{
    let p = paired(messages, marks, spared);
    lemma_paired(messages, marks, spared);
    if answers(messages[stays], id) {
        assert(dropped_call(messages, p, id));
        assert(answers_dropped(messages, p, stays));
    }
}

/// What goes with the marked messages goes for a result: it is not spared, and holds the result
/// of a call in a message that goes.
pub proof fn law_pairing_adds_only_results(
    messages: Seq<MessageView>,
    marks: Seq<bool>,
    spared: Seq<bool>,
    i: int,
)
    requires
        0 <= i < messages.len(),
    ensures
        marks[i] ==> paired(messages, marks, spared)[i],
        paired(messages, marks, spared)[i] && !marks[i] ==> !spared[i] && answers_dropped(
            messages,
            paired(messages, marks, spared),
            i,
        ),
{
    lemma_paired(messages, marks, spared);
}

/// A block as it was, or with its text or its output emptied, or with its text cut.
pub open spec fn trims_block(b: BlockView, c: BlockView) -> bool {
    ||| c == b
    ||| c == blank_text(b)
    ||| c == blank_output(b)
    ||| part_of(b) matches Some(part) && c == with_part(b, clamped_text(part))
}

/// A message with some of its blocks emptied or cut.
pub open spec fn trims(m: MessageView, n: MessageView) -> bool {
    &&& m.role == n.role
    &&& m.name == n.name
    &&& m.tool_call_id == n.tool_call_id
    &&& m.content.len() == n.content.len()
    &&& forall|b: int|
        0 <= b < m.content.len() ==> trims_block(#[trigger] m.content[b], n.content[b])
}

/// A message with blocks emptied or cut `steps` times.
pub open spec fn trimmed_in(m: MessageView, n: MessageView, steps: nat) -> bool
    decreases steps,
{
    if steps == 0 {
        n == m
    } else {
        exists|mid: MessageView| trimmed_in(m, mid, (steps - 1) as nat) && #[trigger] trims(mid, n)
    }
}

/// A message that is still there, at most with blocks emptied or cut.
pub open spec fn is_trimmed(m: MessageView, n: MessageView) -> bool {
    exists|steps: nat| trimmed_in(m, n, steps)
}

/// A message is still itself.
proof fn lemma_trim_none(m: MessageView)
    ensures
        is_trimmed(m, m),
{
    assert(trimmed_in(m, m, 0));
}

/// Emptying or cutting once more.
proof fn lemma_trim_more(m: MessageView, mid: MessageView, n: MessageView)
    requires
        is_trimmed(m, mid),
        trims(mid, n),
    ensures
        is_trimmed(m, n),
{
    let steps = choose|steps: nat| trimmed_in(m, mid, steps);
    assert(trimmed_in(m, n, steps + 1));
}

/// Emptying and cutting, and then again.
proof fn lemma_trim_again(m: MessageView, mid: MessageView, n: MessageView, steps: nat)
    requires
        is_trimmed(m, mid),
        trimmed_in(mid, n, steps),
    ensures
        is_trimmed(m, n),
    decreases steps,
{
    if steps > 0 {
        let last = choose|last: MessageView|
            trimmed_in(mid, last, (steps - 1) as nat) && #[trigger] trims(last, n);
        lemma_trim_again(m, mid, last, (steps - 1) as nat);
        lemma_trim_more(m, last, n);
    }
}

/// Emptying and cutting, and then again.
proof fn lemma_trim_both(m: MessageView, mid: MessageView, n: MessageView)
    requires
        is_trimmed(m, mid),
        is_trimmed(mid, n),
    ensures
        is_trimmed(m, n),
{
    let steps = choose|steps: nat| trimmed_in(mid, n, steps);
    lemma_trim_again(m, mid, n, steps);
}

/// A message keeps its role.
proof fn lemma_trim_role(m: MessageView, n: MessageView, steps: nat)
    requires
        trimmed_in(m, n, steps),
    ensures
        m.role == n.role,
    decreases steps,
{
    if steps > 0 {
        let mid = choose|mid: MessageView|
            trimmed_in(m, mid, (steps - 1) as nat) && #[trigger] trims(mid, n);
        lemma_trim_role(m, mid, (steps - 1) as nat);
    }
}

/// Messages that are all still there, in place, at most with blocks emptied or cut.
spec fn all_trimmed(a: Seq<MessageView>, b: Seq<MessageView>) -> bool {
    a.len() == b.len() && forall|i: int| 0 <= i < a.len() ==> is_trimmed(#[trigger] a[i], b[i])
}

/// Emptying an output keeps every message but for that.
proof fn lemma_blank_trims(a: Seq<MessageView>, messages: Seq<MessageView>, at: (int, Option<int>))
    requires
        all_trimmed(a, messages),
        in_bounds(messages, at),
    ensures
        all_trimmed(a, blank_at(messages, at)),
{
    let after = blank_at(messages, at);
    assert forall|i: int| 0 <= i < a.len() implies is_trimmed(#[trigger] a[i], after[i]) by {
        assert(trims(messages[i], after[i]));
        lemma_trim_more(a[i], messages[i], after[i]);
    }
}

/// Emptying outputs keeps every message but for those.
proof fn lemma_blank_all_trims(messages: Seq<MessageView>, at: Seq<(int, Option<int>)>)
    requires
        forall|k: int| 0 <= k < at.len() ==> in_bounds(messages, #[trigger] at[k]),
    ensures
        all_trimmed(messages, blank_all(messages, at).0),
    decreases at.len(),
{
    if at.len() == 0 {
        assert forall|i: int| 0 <= i < messages.len() implies is_trimmed(
            #[trigger] messages[i],
            messages[i],
        ) by {
            lemma_trim_none(messages[i]);
        }
    } else {
        let fewer = at.drop_last();
        assert forall|k: int| 0 <= k < fewer.len() implies in_bounds(
            messages,
            #[trigger] fewer[k],
        ) by {
            assert(fewer[k] == at[k]);
        }
        lemma_blank_all_trims(messages, fewer);
        lemma_blank_all_shape(messages, fewer);
        let before = blank_all(messages, fewer).0;
        assert(at.last() == at[at.len() - 1]);
        assert(in_bounds(before, at.last())) by {
            assert(messages[at.last().0].content.len() == before[at.last().0].content.len());
        }
        lemma_blank_trims(messages, before, at.last());
    }
}

/// Reads in turn keep every message but for the outputs that are emptied.
proof fn lemma_dedup_trims(messages: Seq<MessageView>, reads: Seq<(Seq<char>, Seq<char>)>)
    ensures
        all_trimmed(messages, dedup_all(messages, reads).messages),
    decreases reads.len(),
{
    if reads.len() == 0 {
        assert forall|i: int| 0 <= i < messages.len() implies is_trimmed(
            #[trigger] messages[i],
            messages[i],
        ) by {
            lemma_trim_none(messages[i]);
        }
    } else {
        lemma_dedup_trims(messages, reads.drop_last());
        let s = dedup_all(messages, reads.drop_last());
        lemma_place_in_bounds(s.messages, reads.last().0, 0);
        if let Some(at) = result_place(s.messages, reads.last().0, 0) {
            lemma_blank_trims(messages, s.messages, at);
        }
    }
}

/// A step that removes no messages keeps each in place, at most with blocks emptied or cut.
proof fn lemma_quiet_step(
    env: MemoryEnv,
    strategy: CompactionStrategy,
    before: Talk,
    after: Talk,
    outcome: Outcome,
)
    requires
        strategy_step(env, strategy, before, after, outcome),
        !removes(strategy),
    ensures
        all_trimmed(before.messages, after.messages),
        after.pin == before.pin,
{
    let messages = before.messages;
    match strategy {
        CompactionStrategy::DeduplicateFileReads { tool_name } => {
            lemma_dedup_trims(messages, reads_from(messages, tool_name@, 0));
        },
        CompactionStrategy::ClearToolResults { keep_pairs } => {
            let at = result_places(messages);
            lemma_result_places(messages);
            if at.len() > keep_pairs {
                let first = at.take(at.len() - keep_pairs);
                assert forall|k: int| 0 <= k < first.len() implies in_bounds(
                    messages,
                    #[trigger] first[k],
                ) by {
                    assert(first[k] == at[k]);
                }
                lemma_blank_all_trims(messages, first);
            } else {
                lemma_blank_all_trims(messages, Seq::empty());
            }
        },
        CompactionStrategy::ClampOversizedMessages { .. } => {
            assert forall|i: int| 0 <= i < messages.len() implies is_trimmed(
                #[trigger] messages[i],
                after.messages[i],
            ) by {
                lemma_trim_none(messages[i]);
                assert(trims(messages[i], after.messages[i]));
                lemma_trim_more(messages[i], messages[i], after.messages[i]);
            }
        },
        _ => {},
    }
}

/// The pinned message is still there, at most with blocks emptied or cut.
spec fn keeps_pin(a: Talk, b: Talk) -> bool {
    match a.pin {
        Some(p) => b.pin matches Some(q) && 0 <= q < b.messages.len() && is_trimmed(
            a.messages[p],
            b.messages[q],
        ),
        None => b.pin is None,
    }
}

/// The first system message is still there and still the first, at most with blocks emptied or
/// cut.
spec fn keeps_system(a: Talk, b: Talk) -> bool {
    forall|s: int| #[trigger]
        first_of(a.messages, MessageRole::System, s) ==> exists|k: int| #[trigger]
            first_of(b.messages, MessageRole::System, k) && is_trimmed(
                a.messages[s],
                b.messages[k],
            )
}

/// A conversation keeps what it is to keep.
proof fn lemma_keeps_none(t: Talk)
    requires
        is_pinned(t),
    ensures
        keeps_pin(t, t),
        keeps_system(t, t),
{
    if let Some(p) = t.pin {
        lemma_trim_none(t.messages[p]);
    }
    assert forall|s: int| #[trigger] first_of(t.messages, MessageRole::System, s) implies exists|
        k: int,
    | #[trigger]
        first_of(t.messages, MessageRole::System, k) && is_trimmed(
            t.messages[s],
            t.messages[k],
        ) by {
        lemma_trim_none(t.messages[s]);
        assert(first_of(t.messages, MessageRole::System, s));
    }
}

/// What is kept twice is kept.
proof fn lemma_keeps_both(a: Talk, b: Talk, c: Talk)
    requires
        keeps_pin(a, b),
        keeps_system(a, b),
        keeps_pin(b, c),
        keeps_system(b, c),
    ensures
        keeps_pin(a, c),
        keeps_system(a, c),
{
    if let Some(p) = a.pin {
        lemma_trim_both(a.messages[p], b.messages[b.pin->0], c.messages[c.pin->0]);
    }
    assert forall|s: int| #[trigger] first_of(a.messages, MessageRole::System, s) implies exists|
        k: int,
    | #[trigger]
        first_of(c.messages, MessageRole::System, k) && is_trimmed(
            a.messages[s],
            c.messages[k],
        ) by {
        let j = choose|j: int| #[trigger]
            first_of(b.messages, MessageRole::System, j) && is_trimmed(
                a.messages[s],
                b.messages[j],
            );
        let k = choose|k: int| #[trigger]
            first_of(c.messages, MessageRole::System, k) && is_trimmed(
                b.messages[j],
                c.messages[k],
            );
        lemma_trim_both(a.messages[s], b.messages[j], c.messages[k]);
        assert(first_of(c.messages, MessageRole::System, k));
    }
}

/// The marks spare the pinned message and the first system message.
spec fn marks_spare(t: Talk, marks: Seq<bool>) -> bool {
    &&& marks.len() == t.messages.len()
    &&& t.pin matches Some(p) ==> !marks[p]
    &&& forall|s: int| #[trigger]
        first_of(t.messages, MessageRole::System, s) ==> !marks[s]
}

/// Where the first system message stands after the marked messages went.
proof fn lemma_system_moves(t: Talk, marks: Seq<bool>, s: int)
    requires
        marks_spare(t, marks),
        first_of(t.messages, MessageRole::System, s),
    ensures
        first_of(dropping(t, marks).messages, MessageRole::System, moved(marks, s)),
        dropping(t, marks).messages[moved(marks, s)] == t.messages[s],
{
    let kept = dropping(t, marks).messages;
    lemma_moved(t.messages, marks, 0, s);
    assert(moved(marks, 0) == 0);
    let at = moved(marks, s);
    assert forall|k: int| 0 <= k < at implies (#[trigger] kept[k]).role != MessageRole::System by {
        let j = choose|j: int|
            0 <= j < s && !marks[j] && #[trigger] t.messages[j] == #[trigger] kept[k];
        assert(t.messages[j].role != MessageRole::System);
    }
}

/// Dropping messages that are not to be kept keeps what is.
proof fn lemma_drop_keeps(t: Talk, marks: Seq<bool>)
    requires
        is_pinned(t),
        marks_spare(t, marks),
    ensures
        keeps_pin(t, dropping(t, marks)),
        keeps_system(t, dropping(t, marks)),
{
    let after = dropping(t, marks);
    if let Some(p) = t.pin {
        lemma_moved(t.messages, marks, 0, p);
        assert(moved(marks, 0) == 0);
        lemma_trim_none(t.messages[p]);
    }
    assert forall|s: int| #[trigger] first_of(t.messages, MessageRole::System, s) implies exists|
        k: int,
    | #[trigger]
        first_of(after.messages, MessageRole::System, k) && is_trimmed(
            t.messages[s],
            after.messages[k],
        ) by {
        lemma_system_moves(t, marks, s);
        lemma_trim_none(t.messages[s]);
        assert(first_of(after.messages, MessageRole::System, moved(marks, s)));
    }
}

/// Putting a summary in place of messages that are not to be kept keeps what is.
proof fn lemma_summary_keeps(t: Talk, marks: Seq<bool>, summary: Seq<char>)
    requires
        is_pinned(t),
        marks_spare(t, marks),
        any_marked(marks),
    ensures
        keeps_pin(t, summarized(t, marks, summary)),
        keeps_system(t, summarized(t, marks, summary)),
{
    let kept = dropping(t, marks);
    let after = summarized(t, marks, summary);
    lemma_any_has_first(marks, 0);
    let first = choose|k: int| is_first_mark(marks, k);
    lemma_kept_head(t.messages, marks, 0, first);
    lemma_drop_keeps(t, marks);
    assert forall|s: int| #[trigger] first_of(t.messages, MessageRole::System, s) implies exists|
        k: int,
    | #[trigger]
        first_of(after.messages, MessageRole::System, k) && is_trimmed(
            t.messages[s],
            after.messages[k],
        ) by {
        lemma_system_moves(t, marks, s);
        lemma_trim_none(t.messages[s]);
        let at = moved(marks, s);
        let now = if first <= at {
            at + 1
        } else {
            at
        };
        assert forall|k: int| 0 <= k < now implies (#[trigger] after.messages[k]).role
            != MessageRole::System by {
            if k < first {
                assert(after.messages[k] == kept.messages[k]);
            } else if k > first {
                assert(after.messages[k] == kept.messages[k - 1]);
            }
        }
        assert(first_of(after.messages, MessageRole::System, now));
    }
}

/// A step keeps the pinned message and the first system message.
proof fn lemma_step_keeps(
    env: MemoryEnv,
    strategy: CompactionStrategy,
    before: Talk,
    after: Talk,
    outcome: Outcome,
)
    requires
        strategy_step(env, strategy, before, after, outcome),
        is_pinned(before),
    ensures
        keeps_pin(before, after),
        keeps_system(before, after),
{
    lemma_keeps_none(before);
    match strategy {
        CompactionStrategy::Offload { turns } => {
            lemma_turns_spare(before, turns as nat);
            lemma_drop_keeps(before, turns_drop(before, turns as nat));
        },
        CompactionStrategy::Summarize { turns } => {
            lemma_turns_spare(before, turns as nat);
            let marks = turns_drop(before, turns as nat);
            if after != before {
                let oldest = removable_turns(
                    before.messages,
                    before.pin,
                    turns as nat,
                );
                let k = choose|k: int| 0 <= k < oldest.len() && #[trigger] oldest[k];
                lemma_paired(before.messages, oldest, protected(before.messages, before.pin));
                assert(marks[k]);
                let summary = choose|summary: Seq<char>|
                    after == #[trigger] summarized(before, marks, summary);
                lemma_summary_keeps(before, marks, summary);
            }
        },
        CompactionStrategy::SlidingWindow { keep_messages } => {
            lemma_turns_spare(before, keep_messages as nat);
            lemma_drop_keeps(before, slide_drop(before, keep_messages as nat));
        },
        CompactionStrategy::DropObservations => {
            lemma_drop_keeps(before, observations_drop(before.messages, env.max_observations));
        },
        CompactionStrategy::DropTurns => {
            lemma_turns_spare(before, env.offload_turns);
            lemma_drop_keeps(before, turns_drop(before, env.offload_turns));
        },
        _ => {
            lemma_quiet_step(env, strategy, before, after, outcome);
            lemma_quiet_keeps(before, after);
        },
    }
}

/// What the steps mark spares what is to be kept.
proof fn lemma_turns_spare(t: Talk, n: nat)
    requires
        is_pinned(t),
    ensures
        marks_spare(t, turns_drop(t, n)),
        marks_spare(t, slide_drop(t, n)),
{
    lemma_protected_stay(t, n);
    let spared = protected(t.messages, t.pin);
    if let Some(p) = t.pin {
        assert(spared[p]);
    }
    assert forall|s: int| #[trigger] first_of(t.messages, MessageRole::System, s) implies !turns_drop(
        t,
        n,
    )[s] && !slide_drop(t, n)[s] by {
        assert(spared[s]);
    }
}

/// Messages that are all still there are kept.
proof fn lemma_quiet_keeps(a: Talk, b: Talk)
    requires
        is_pinned(a),
        all_trimmed(a.messages, b.messages),
        b.pin == a.pin,
    ensures
        keeps_pin(a, b),
        keeps_system(a, b),
{
    if let Some(p) = a.pin {
        assert(is_trimmed(a.messages[p], b.messages[p]));
    }
    assert forall|i: int| 0 <= i < a.messages.len() implies (#[trigger] a.messages[i]).role
        == b.messages[i].role by {
        assert(is_trimmed(a.messages[i], b.messages[i]));
        let steps = choose|steps: nat| trimmed_in(a.messages[i], b.messages[i], steps);
        lemma_trim_role(a.messages[i], b.messages[i], steps);
    }
    assert forall|s: int| #[trigger] first_of(a.messages, MessageRole::System, s) implies exists|
        k: int,
    | #[trigger]
        first_of(b.messages, MessageRole::System, k) && is_trimmed(
            a.messages[s],
            b.messages[k],
        ) by {
        assert forall|k: int| 0 <= k < s implies (#[trigger] b.messages[k]).role
            != MessageRole::System by {
            assert(a.messages[k].role == b.messages[k].role);
        }
        assert(is_trimmed(a.messages[s], b.messages[s]));
        assert(first_of(b.messages, MessageRole::System, s));
    }
}

/// What is kept of a pin is a pin.
proof fn lemma_kept_pin(a: Talk, b: Talk)
    requires
        is_pinned(a),
        keeps_pin(a, b),
    ensures
        is_pinned(b),
{
    if let Some(p) = a.pin {
        let q = b.pin->0;
        let steps = choose|steps: nat| trimmed_in(a.messages[p], b.messages[q], steps);
        lemma_trim_role(a.messages[p], b.messages[q], steps);
    }
}

/// After a step the pin still points at a user message.
pub(crate) proof fn lemma_step_keeps_pin(
    env: MemoryEnv,
    strategy: CompactionStrategy,
    before: Talk,
    after: Talk,
    outcome: Outcome,
)
    requires
        strategy_step(env, strategy, before, after, outcome),
        is_pinned(before),
    ensures
        is_pinned(after),
{
    lemma_step_keeps(env, strategy, before, after, outcome);
    lemma_kept_pin(before, after);
}

/// A pass keeps the pinned message and the first system message.
proof fn lemma_pass_keeps(env: MemoryEnv, budget: Budget, n: nat, s: PassState, t: PassState)
    requires
        pass_reached(env, budget, n, s, t),
        is_pinned(s.talk),
    ensures
        is_pinned(t.talk),
        keeps_pin(s.talk, t.talk),
        keeps_system(s.talk, t.talk),
    decreases n,
{
    if n == 0 {
        lemma_keeps_none(s.talk);
    } else {
        let mid = choose|mid: PassState|
            pass_reached(env, budget, (n - 1) as nat, s, mid) && #[trigger] nth_step(
                env,
                budget,
                n,
                mid,
                t,
            );
        lemma_pass_keeps(env, budget, (n - 1) as nat, s, mid);
        if !mid.stopped && !mid.failed {
            let strategy = env.strategies[n - 1];
            assert(pass_step(env, budget, strategy, mid, t));
            let (after, outcome) = choose|after: Talk, outcome: Outcome|
                #[trigger] strategy_step(env, strategy, mid.talk, after, outcome) && t.talk
                    == after;
            lemma_step_keeps(env, strategy, mid.talk, after, outcome);
            lemma_kept_pin(mid.talk, after);
            lemma_keeps_both(s.talk, mid.talk, after);
        }
    }
}

/// Passes keep the pinned message and the first system message.
proof fn lemma_rounds_keep(env: MemoryEnv, budget: Budget, n: nat, s: PassState, t: PassState)
    requires
        rounds(env, budget, n, s, t),
        is_pinned(s.talk),
    ensures
        is_pinned(t.talk),
        keeps_pin(s.talk, t.talk),
        keeps_system(s.talk, t.talk),
    decreases n,
{
    if n == 0 {
        lemma_keeps_none(s.talk);
    } else {
        let mid = choose|mid: PassState|
            rounds(env, budget, (n - 1) as nat, s, mid) && !mid.ended && #[trigger] round(
                env,
                budget,
                mid,
                t,
            );
        lemma_rounds_keep(env, budget, (n - 1) as nat, s, mid);
        let from = PassState { stopped: false, ..mid };
        let u = choose|u: PassState|
            #[trigger] pass_reached(env, budget, env.strategies.len(), from, u) && t.talk == u.talk;
        lemma_pass_keeps(env, budget, env.strategies.len(), from, u);
        lemma_keeps_both(s.talk, mid.talk, t.talk);
    }
}

/// The pin of a compression that starts points at the most recent user message.
proof fn lemma_start_pin(messages: Seq<MessageView>)
    ensures
        is_pinned(pass_start(messages).talk),
        forall|i: int| #[trigger]
            last_of(messages, MessageRole::User, i) ==> recent_pin(messages) == Some(i),
{
    assert forall|i: int| #[trigger] last_of(messages, MessageRole::User, i) implies recent_pin(
        messages,
    ) == Some(i) by {
        let k = choose|k: int| last_of(messages, MessageRole::User, k);
        lemma_last_unique(messages, MessageRole::User, i, k);
    }
}

/// The most recent user message survives a compression, whatever its steps are and however many
/// passes it takes: it is still among the messages, at most with blocks emptied or cut.
pub proof fn law_recent_user_message_survives(
    env: MemoryEnv,
    budget: Budget,
    before: Seq<MessageView>,
    after: Seq<MessageView>,
    r: Result<CompressionReport, PluginError>,
    i: int,
)
    requires
        compressed(env, budget, before, after, r),
        last_of(before, MessageRole::User, i),
    ensures
        exists|k: int| 0 <= k < after.len() && is_trimmed(before[i], #[trigger] after[k]),
{
    lemma_start_pin(before);
    lemma_trim_none(before[i]);
    if after != before {
        let (n, t) = choose|n: nat, t: PassState|
            #[trigger] compression_ends(env, budget, before, n, t) && after == t.talk.messages;
        lemma_rounds_keep(env, budget, n, pass_start(before), t);
        let q = t.talk.pin->0;
        assert(is_trimmed(before[i], after[q]));
    } else {
        assert(is_trimmed(before[i], after[i]));
    }
}

/// The first system message survives a compression, whatever its steps are and however many
/// passes it takes: it is still the first system message, at most with blocks emptied or cut.
pub proof fn law_first_system_message_survives(
    env: MemoryEnv,
    budget: Budget,
    before: Seq<MessageView>,
    after: Seq<MessageView>,
    r: Result<CompressionReport, PluginError>,
    i: int,
)
    requires
        compressed(env, budget, before, after, r),
        first_of(before, MessageRole::System, i),
    ensures
        exists|k: int| #[trigger]
            first_of(after, MessageRole::System, k) && is_trimmed(before[i], after[k]),
{
    lemma_start_pin(before);
    lemma_trim_none(before[i]);
    if after != before {
        let (n, t) = choose|n: nat, t: PassState|
            #[trigger] compression_ends(env, budget, before, n, t) && after == t.talk.messages;
        let start = pass_start(before);
        lemma_rounds_keep(env, budget, n, start, t);
        assert(first_of(start.talk.messages, MessageRole::System, i));
    } else {
        assert(first_of(after, MessageRole::System, i));
    }
}

/// Storing is all or nothing: where a step fails, the conversation stays as it was.
pub proof fn law_failed_steps_change_nothing(
    env: MemoryEnv,
    strategy: CompactionStrategy,
    before: Talk,
    after: Talk,
    outcome: Outcome,
)
    requires
        strategy_step(env, strategy, before, after, outcome),
        outcome is Failed,
    ensures
        after == before,
{
}

/// Reads in turn keep the messages and their blocks in place.
proof fn lemma_dedup_shape(messages: Seq<MessageView>, reads: Seq<(Seq<char>, Seq<char>)>)
    ensures
        same_shape(messages, dedup_all(messages, reads).messages),
    decreases reads.len(),
{
    if reads.len() > 0 {
        lemma_dedup_shape(messages, reads.drop_last());
        let s = dedup_all(messages, reads.drop_last());
        let after = dedup_all(messages, reads).messages;
        lemma_place_in_bounds(s.messages, reads.last().0, 0);
        if let Some(at) = result_place(s.messages, reads.last().0, 0) {
            lemma_blank_shape(s.messages, at);
        }
        assert forall|i: int| 0 <= i < messages.len() implies {
            let m = #[trigger] messages[i];
            &&& m.role == after[i].role
            &&& m.name == after[i].name
            &&& m.tool_call_id == after[i].tool_call_id
            &&& m.content.len() == after[i].content.len()
        } by {
            assert(s.messages[i].role == after[i].role);
        }
    }
}

/// A block that is found is there.
proof fn lemma_block_in_bounds(content: Seq<BlockView>, id: Seq<char>, b: int)
    requires
        0 <= b,
    ensures
        result_block(content, id, b) matches Some(k) ==> 0 <= k < content.len(),
    decreases content.len() - b,
{
    if b < content.len() {
        lemma_block_in_bounds(content, id, b + 1);
    }
}

/// An output that is found is there.
proof fn lemma_place_in_bounds(messages: Seq<MessageView>, id: Seq<char>, i: int)
    requires
        0 <= i,
    ensures
        result_place(messages, id, i) matches Some(at) ==> in_bounds(messages, at),
    decreases messages.len() - i,
{
    if i < messages.len() {
        lemma_block_in_bounds(messages[i].content, id, 0);
        lemma_place_in_bounds(messages, id, i + 1);
    }
}

/// A step that removes no messages keeps each message and each of its blocks in place.
pub proof fn law_emptying_and_cutting_keep_the_shape(
    env: MemoryEnv,
    strategy: CompactionStrategy,
    before: Talk,
    after: Talk,
    outcome: Outcome,
)
    requires
        strategy_step(env, strategy, before, after, outcome),
        !removes(strategy),
    ensures
        same_shape(before.messages, after.messages),
        after.pin == before.pin,
{
    let messages = before.messages;
    match strategy {
        CompactionStrategy::DeduplicateFileReads { tool_name } => {
            lemma_dedup_shape(messages, reads_from(messages, tool_name@, 0));
        },
        CompactionStrategy::ClearToolResults { keep_pairs } => {
            let at = result_places(messages);
            lemma_result_places(messages);
            if at.len() > keep_pairs {
                let first = at.take(at.len() - keep_pairs);
                assert forall|k: int| 0 <= k < first.len() implies in_bounds(
                    messages,
                    #[trigger] first[k],
                ) by {
                    assert(first[k] == at[k]);
                }
                lemma_blank_all_shape(messages, first);
            }
        },
        _ => {},
    }
}

/// Some message has the role.
pub open spec fn has_role(messages: Seq<MessageView>, role: MessageRole) -> bool {
    exists|i: int| 0 <= i < messages.len() && (#[trigger] messages[i]).role == role
}

/// Where some message has a role, one is the last with it.
proof fn lemma_last_exists(messages: Seq<MessageView>, role: MessageRole, i: int)
    requires
        has_role(messages, role),
        0 <= i <= messages.len(),
        forall|k: int| i <= k < messages.len() ==> (#[trigger] messages[k]).role != role,
    ensures
        exists|k: int| last_of(messages, role, k),
    decreases i,
{
    if i == 0 {
        let k = choose|k: int| 0 <= k < messages.len() && (#[trigger] messages[k]).role == role;
        assert(messages[k].role != role);
    } else if messages[i - 1].role == role {
        assert(last_of(messages, role, i - 1));
    } else {
        lemma_last_exists(messages, role, i - 1);
    }
}

/// A compression, however many passes it takes, leaves a user message where there is one.
pub proof fn law_compression_leaves_a_user_message(
    env: MemoryEnv,
    budget: Budget,
    before: Seq<MessageView>,
    after: Seq<MessageView>,
    r: Result<CompressionReport, PluginError>,
)
    requires
        compressed(env, budget, before, after, r),
        has_role(before, MessageRole::User),
    ensures
        has_role(after, MessageRole::User),
{
    lemma_last_exists(before, MessageRole::User, before.len() as int);
    let i = choose|i: int| last_of(before, MessageRole::User, i);
    law_recent_user_message_survives(env, budget, before, after, r, i);
    let k = choose|k: int| 0 <= k < after.len() && is_trimmed(before[i], #[trigger] after[k]);
    let steps = choose|steps: nat| trimmed_in(before[i], after[k], steps);
    lemma_trim_role(before[i], after[k], steps);
}

/// The first message that holds the graph, where none before it does.
proof fn lemma_graph_index(messages: Seq<MessageView>, i: int, at: int)
    requires
        0 <= i <= at < messages.len(),
        holds_graph(messages[at]),
        forall|k: int| i <= k < at ==> !holds_graph(#[trigger] messages[k]),
    ensures
        graph_index(messages, i) == Some(at),
    decreases at - i,
{
    if i < at {
        assert(!holds_graph(messages[i]));
        lemma_graph_index(messages, i + 1, at);
    }
}

/// Before the first message that holds the graph none does.
proof fn lemma_graph_index_first(messages: Seq<MessageView>, i: int)
    requires
        0 <= i <= messages.len(),
    ensures
        match graph_index(messages, i) {
            Some(at) => i <= at < messages.len() && holds_graph(messages[at]) && forall|k: int|
                i <= k < at ==> !holds_graph(#[trigger] messages[k]),
            None => forall|k: int| i <= k < messages.len() ==> !holds_graph(#[trigger] messages[k]),
        },
    decreases messages.len() - i,
{
    if i < messages.len() && !holds_graph(messages[i]) {
        lemma_graph_index_first(messages, i + 1);
    }
}

/// The slot of the graph is among the messages or behind them.
proof fn lemma_slot_in_bounds(messages: Seq<MessageView>, i: int)
    requires
        0 <= i,
    ensures
        system_index(messages, i) matches Some(k) ==> i <= k < messages.len(),
    decreases messages.len() - i,
{
    if i < messages.len() {
        lemma_slot_in_bounds(messages, i + 1);
    }
}

/// The graph is put in once: a later graph takes the place of the one that a request carries,
/// as if it had been the first.
pub proof fn law_graph_is_replaced_in_place(
    messages: Seq<MessageView>,
    first: Seq<char>,
    second: Seq<char>,
)
    requires
        has_prefix(first, GRAPH_RENDER_MARKER@),
        has_prefix(second, GRAPH_RENDER_MARKER@),
    ensures
        with_graph(with_graph(messages, Some(first)), Some(second)) == with_graph(
            messages,
            Some(second),
        ),
{
    let once = with_graph(messages, Some(first));
    let message = text_message(MessageRole::System, first);
    assert(first_text(message.content, 0) == Some(first));
    lemma_graph_index_first(messages, 0);
    match graph_index(messages, 0) {
        Some(at) => {
            assert forall|k: int| 0 <= k < at implies !holds_graph(#[trigger] once[k]) by {
                assert(once[k] == messages[k]);
            }
            lemma_graph_index(once, 0, at);
            assert(with_graph(once, Some(second)) =~= with_graph(messages, Some(second)));
        },
        None => {
            let slot = graph_slot(messages);
            lemma_slot_in_bounds(messages, 0);
            assert forall|k: int| 0 <= k < slot implies !holds_graph(#[trigger] once[k]) by {
                assert(once[k] == messages[k]);
            }
            lemma_graph_index(once, 0, slot);
            assert(with_graph(once, Some(second)) =~= with_graph(messages, Some(second)));
        },
    }
}

/// Once the graph is empty, a request is as if it had never carried one.
pub proof fn law_empty_graph_leaves_no_trace(messages: Seq<MessageView>, text: Seq<char>)
    requires
        has_prefix(text, GRAPH_RENDER_MARKER@),
        graph_index(messages, 0) is None,
    ensures
        with_graph(with_graph(messages, Some(text)), None) == messages,
{
    let once = with_graph(messages, Some(text));
    let message = text_message(MessageRole::System, text);
    assert(first_text(message.content, 0) == Some(text));
    lemma_graph_index_first(messages, 0);
    let slot = graph_slot(messages);
    lemma_slot_in_bounds(messages, 0);
    assert forall|k: int| 0 <= k < slot implies !holds_graph(#[trigger] once[k]) by {
        assert(once[k] == messages[k]);
    }
    lemma_graph_index(once, 0, slot);
    assert(with_graph(once, None) =~= messages);
}

/// What a request carries after the graph was put into it once for each rendering.
pub open spec fn with_graphs(messages: Seq<MessageView>, renders: Seq<Option<Seq<char>>>) -> Seq<
    MessageView,
>
    decreases renders.len(),
{
    if renders.len() == 0 {
        messages
    } else {
        with_graph(with_graphs(messages, renders.drop_last()), renders.last())
    }
}

/// At most one message holds the graph.
pub open spec fn at_most_one_graph(messages: Seq<MessageView>) -> bool {
    forall|i: int, j: int|
        0 <= i < messages.len() && 0 <= j < messages.len() && holds_graph(#[trigger] messages[i])
            && holds_graph(#[trigger] messages[j]) ==> i == j
}

/// However often a request comes by, it carries the current graph and no other: as if only the
/// last rendering had been put in, one system message with its text, or none where the graph is
/// empty.
pub proof fn law_requests_carry_the_current_graph(
    messages: Seq<MessageView>,
    renders: Seq<Option<Seq<char>>>,
)
    requires
        renders.len() > 0,
        forall|k: int| 0 <= k < messages.len() ==> !holds_graph(#[trigger] messages[k]),
        forall|k: int|
            0 <= k < renders.len() ==> match #[trigger] renders[k] {
                Some(text) => has_prefix(text, GRAPH_RENDER_MARKER@),
                None => true,
            },
    ensures
        ({
            let after = with_graphs(messages, renders);
            &&& at_most_one_graph(after)
            &&& match renders.last() {
                Some(text) => after == messages.insert(
                    graph_slot(messages),
                    text_message(MessageRole::System, text),
                ) && holds_graph(after[graph_slot(messages)]),
                None => after == messages,
            }
        }),
    decreases renders.len(),
{
    lemma_graph_index_first(messages, 0);
    lemma_slot_in_bounds(messages, 0);
    let slot = graph_slot(messages);
    let last = renders.last();
    assert(last == renders[renders.len() - 1]);
    if renders.len() > 1 {
        let earlier = renders.drop_last();
        assert forall|k: int| 0 <= k < earlier.len() implies match #[trigger] earlier[k] {
            Some(text) => has_prefix(text, GRAPH_RENDER_MARKER@),
            None => true,
        } by {
            assert(earlier[k] == renders[k]);
        }
        law_requests_carry_the_current_graph(messages, earlier);
        let before = earlier.last();
        assert(before == renders[renders.len() - 2]);
        match (before, last) {
            (Some(first), Some(second)) => {
                law_graph_is_replaced_in_place(messages, first, second);
            },
            (Some(first), None) => {
                law_empty_graph_leaves_no_trace(messages, first);
            },
            _ => {},
        }
    } else {
        assert(renders.drop_last() =~= Seq::empty());
        assert(with_graphs(messages, renders.drop_last()) == messages);
    }
    let after = with_graphs(messages, renders);
    if let Some(text) = last {
        let message = text_message(MessageRole::System, text);
        assert(first_text(message.content, 0) == Some(text));
        assert forall|i: int| 0 <= i < after.len() && i != slot implies !holds_graph(
            #[trigger] after[i],
        ) by {
            if i < slot {
                assert(after[i] == messages[i]);
            } else {
                assert(after[i] == messages[i - 1]);
            }
        }
    }
}

/// What a graph is rendered to starts with the marker by which it is found again.
pub proof fn law_rendered_graphs_are_marked(
    g: GraphView,
    max_nodes: nat,
    max_relationships: nat,
)
    ensures
        has_prefix(render_text(g, max_nodes, max_relationships), GRAPH_RENDER_MARKER@),
{
    let text = render_text(g, max_nodes, max_relationships);
    assert(text.take(GRAPH_RENDER_MARKER@.len() as int) =~= GRAPH_RENDER_MARKER@);
}

/// A warning is not a message that holds the graph.
proof fn lemma_warning_holds_no_graph(percent: Seq<char>, window: u32)
    ensures
        !holds_graph(text_message(MessageRole::System, window_warning(percent, window))),
{
    let text = window_warning(percent, window);
    let message = text_message(MessageRole::System, text);
    assert(first_text(message.content, 0) == Some(text));
    reveal_strlit("CUCA graph memory:");
    reveal_strlit("CUCA context warning:");
    if has_prefix(text, GRAPH_RENDER_MARKER@) {
        assert(text.take(GRAPH_RENDER_MARKER@.len() as int)[5] == GRAPH_RENDER_MARKER@[5]);
        assert(text[5] == WARNING_MARKER@[5]);
    }
}

/// Messages carry the graph of a plugin once: where the graph is empty none holds one, and else
/// exactly one does, a system message with the rendering, in place of the one that held it before
/// or, where there was none, behind the first system message or at the start.
pub open spec fn carries_one_graph(
    plugin: MemoryPlugin,
    before: Seq<MessageView>,
    warned: Seq<MessageView>,
    after: Seq<MessageView>,
) -> bool {
    &&& at_most_one_graph(after)
    &&& match plugin.rendered(plugin.config().graph_context->0) {
        Some(text) => {
            let at = match graph_index(before, 0) {
                Some(i) => i,
                None => graph_slot(warned),
            };
            0 <= at < after.len() && holds_graph(after[at]) && after[at] == text_message(
                MessageRole::System,
                text,
            )
        },
        None => forall|k: int| 0 <= k < after.len() ==> !holds_graph(#[trigger] after[k]),
    }
}

/// Request after request, a conversation that is within its budget carries the graph as it
/// stands once. The caller may add messages in between that do not start like a graph.
pub proof fn law_a_request_carries_one_graph(
    plugin: MemoryPlugin,
    before: RequestView,
    usage: ContextUsage,
    reading: WindowReading,
    after: RequestView,
    r: Result<(), PluginError>,
)
    requires
        plugin.requested(before, usage, reading, after, r),
        r is Ok,
        plugin.config().graph_context is Some,
        at_most_one_graph(before.messages),
        !exceeds_budget(
            plugin.budgeted(reading.fraction_tokens),
            with_warning(before.messages, reading.gauge, usage.window_tokens).len(),
            usage.used_tokens,
        ),
    ensures
        carries_one_graph(
            plugin,
            before.messages,
            with_warning(before.messages, reading.gauge, usage.window_tokens),
            after.messages,
        ),
{
    lemma_prepared_carries_one_graph(
        plugin,
        before.messages,
        usage,
        reading,
        after.messages,
        r,
    );
}

/// A request that is made ready carries the graph once.
proof fn lemma_prepared_carries_one_graph(
    plugin: MemoryPlugin,
    before: Seq<MessageView>,
    usage: ContextUsage,
    reading: WindowReading,
    after: Seq<MessageView>,
    r: Result<(), PluginError>,
)
    requires
        plugin.prepared(before, usage, reading, after, r),
        plugin.config().graph_context is Some,
        at_most_one_graph(before),
        !exceeds_budget(
            plugin.budgeted(reading.fraction_tokens),
            with_warning(before, reading.gauge, usage.window_tokens).len(),
            usage.used_tokens,
        ),
    ensures
        carries_one_graph(
            plugin,
            before,
            with_warning(before, reading.gauge, usage.window_tokens),
            after,
        ),
{
    let c = plugin.config().graph_context->0;
    let gauge = reading.gauge;
    let warned = with_warning(before, gauge, usage.window_tokens);
    let render = plugin.rendered(c);
    assert(after == with_graph(warned, render));
    lemma_warning_holds_no_graph(gauge.percent@, usage.window_tokens);
    assert forall|i: int| 0 <= i < warned.len() && i >= before.len() implies !holds_graph(
        #[trigger] warned[i],
    ) by {}
    lemma_graph_index_first(before, 0);
    lemma_graph_index_first(warned, 0);
    lemma_slot_in_bounds(warned, 0);
    match graph_index(before, 0) {
        Some(at) => {
            assert forall|k: int| 0 <= k < at implies !holds_graph(#[trigger] warned[k]) by {
                assert(warned[k] == before[k]);
            }
            assert(warned[at] == before[at]);
            lemma_graph_index(warned, 0, at);
        },
        None => {
            if let Some(at) = graph_index(warned, 0) {
                assert(at < before.len());
                assert(warned[at] == before[at]);
            }
        },
    }
    assert(at_most_one_graph(warned)) by {
        assert forall|i: int, j: int|
            0 <= i < warned.len() && 0 <= j < warned.len() && holds_graph(#[trigger] warned[i])
                && holds_graph(#[trigger] warned[j]) implies i == j by {
            assert(warned[i] == before[i]);
            assert(warned[j] == before[j]);
        }
    }
    match render {
        Some(text) => {
            law_rendered_graphs_are_marked(
                plugin.memory(),
                c.max_nodes as nat,
                c.max_relationships as nat,
            );
            let message = text_message(MessageRole::System, text);
            assert(first_text(message.content, 0) == Some(text));
            let at = match graph_index(warned, 0) {
                Some(i) => i,
                None => graph_slot(warned),
            };
            assert forall|k: int| 0 <= k < after.len() && k != at implies !holds_graph(
                #[trigger] after[k],
            ) by {
                if graph_index(warned, 0) is Some || k < at {
                    assert(after[k] == warned[k]);
                } else {
                    assert(after[k] == warned[k - 1]);
                }
            }
        },
        None => {
            assert forall|k: int| 0 <= k < after.len() implies !holds_graph(
                #[trigger] after[k],
            ) by {
                if let Some(at) = graph_index(warned, 0) {
                    if k < at {
                        assert(after[k] == warned[k]);
                    } else {
                        assert(after[k] == warned[k + 1]);
                    }
                }
            }
        },
    }
}

/// The model is warned once: messages that hold the warning get no second one.
pub proof fn law_warning_is_given_once(
    messages: Seq<MessageView>,
    first: WindowGauge,
    second: WindowGauge,
    window: u32,
    other: u32,
)
    requires
        first.near_limit,
    ensures
        with_warning(with_warning(messages, first, window), second, other) == with_warning(
            messages,
            first,
            window,
        ),
{
    let after = with_warning(messages, first, window);
    if !holds_marker(messages, WARNING_MARKER@) {
        let text = window_warning(first.percent@, window);
        assert(has_prefix(text.skip(0), WARNING_MARKER@)) by {
            assert(text.skip(0) =~= text);
            assert(text.take(WARNING_MARKER@.len() as int) =~= WARNING_MARKER@);
        }
        assert(has_substring(text, WARNING_MARKER@));
        let i = messages.len() as int;
        assert(is_marked(after[i].content[0], WARNING_MARKER@));
    }
}

} // verus!
