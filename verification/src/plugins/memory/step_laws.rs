//! What each step of the compression is for, and what a compression reports.

use crate::error::PluginError;
use crate::json::JsonView;
use crate::plugins::memory::compaction::{
    any_cut, any_marked, blank_all, blank_at, block_places, clamp_messages, clamped_text, cleared,
    count_before, first_of, has_text, holds_output, in_bounds, is_cut, is_observation,
    is_oversized, is_removable, is_unprotected, kept_from, last_of, lemma_paired,
    lemma_result_places, message_places, observations_drop, oldest, only, part_of, protected,
    removable_turns, result_places, taken_to, window_drop, without,
};
use crate::plugins::memory::dedup_laws::emptied;
use crate::plugins::memory::{
    compressed, compression_ends, counted_text, counted_texts, exceeds_budget, goes_on,
    is_untokenizable, joined_blocks, measured, nth_step, pass_reached, pass_start, pass_step,
    role_name, round, rounds, slide_drop, strategy_step, turns_drop, with_warning, Budget,
    CompactionStrategy, CompressionAction, CompressionReport, MemoryEnv, MemoryPlugin, Outcome,
    PassState, Talk, WindowGauge, WARNING_MARKER,
};
use crate::text::{decimal, has_substring};
use crate::tokenize::{text_tokens, token_count, token_sum, Encoder};
use crate::types::{holds_marker, is_marked, BlockView, MessageRole, MessageView};
use vstd::prelude::*;

verus! {

/// How many marks are set.
pub open spec fn tally(marks: Seq<bool>) -> nat
    decreases marks.len(),
{
    if marks.len() == 0 {
        0
    } else {
        tally(marks.drop_last()) + if marks.last() {
            1nat
        } else {
            0nat
        }
    }
}

/// The marks before a position, counted.
pub proof fn lemma_tally(marks: Seq<bool>, i: int)
    requires
        0 <= i <= marks.len(),
    ensures
        tally(marks.take(i)) == count_before(marks, i),
    decreases i,
{
    if i > 0 {
        lemma_tally(marks, i - 1);
        assert(marks.take(i).drop_last() =~= marks.take(i - 1));
        assert(marks.take(i).last() == marks[i - 1]);
    }
}

/// What stays, from a position on.
proof fn lemma_kept(messages: Seq<MessageView>, marks: Seq<bool>, start: int, i: int)
    requires
        marks.len() == messages.len(),
        0 <= start <= i <= messages.len(),
    ensures
        kept_from(messages, marks, start).len() == messages.len() - start - (count_before(
            marks,
            marks.len() as int,
        ) - count_before(marks, start)),
        i < messages.len() && !marks[i] ==> {
            let at = (i - count_before(marks, i)) - (start - count_before(marks, start));
            0 <= at < kept_from(messages, marks, start).len() && kept_from(
                messages,
                marks,
                start,
            )[at] == messages[i]
        },
    decreases messages.len() - start,
{
    if start < messages.len() {
        assert(count_before(marks, start + 1) == count_before(marks, start) + if marks[start] {
            1nat
        } else {
            0nat
        });
        if start < i {
            lemma_kept(messages, marks, start + 1, i);
        } else {
            lemma_kept(messages, marks, start + 1, start + 1);
        }
    }
}

/// What goes, up to a position.
proof fn lemma_taken(messages: Seq<MessageView>, marks: Seq<bool>, n: int, i: int)
    requires
        marks.len() == messages.len(),
        0 <= i <= n <= messages.len(),
    ensures
        taken_to(messages, marks, n).len() == count_before(marks, n),
        i < n && marks[i] ==> count_before(marks, i) < count_before(marks, n) && taken_to(
            messages,
            marks,
            n,
        )[count_before(marks, i) as int] == messages[i],
    decreases n,
{
    if n > 0 {
        if i < n {
            lemma_taken(messages, marks, n - 1, i);
        } else {
            lemma_taken(messages, marks, n - 1, n - 1);
        }
    }
}

/// Messages are split in two, each part in order: every message that is marked is handed on, and
/// every other one stays.
pub proof fn law_messages_go_or_stay(messages: Seq<MessageView>, marks: Seq<bool>, i: int)
    requires
        marks.len() == messages.len(),
        0 <= i < messages.len(),
    ensures
        ({
            let before = tally(marks.take(i)) as int;
            &&& without(messages, marks).len() + only(messages, marks).len() == messages.len()
            &&& only(messages, marks).len() == tally(marks)
            &&& marks[i] ==> before < only(messages, marks).len() && only(messages, marks)[before]
                == messages[i]
            &&& !marks[i] ==> i - before < without(messages, marks).len() && without(
                messages,
                marks,
            )[i - before] == messages[i]
        }),
{
    let n = messages.len() as int;
    lemma_tally(marks, i);
    lemma_tally(marks, n);
    assert(marks.take(n) =~= marks);
    lemma_kept(messages, marks, 0, i);
    lemma_taken(messages, marks, n, i);
}

/// The smaller of two numbers.
pub open spec fn least(a: nat, b: nat) -> nat {
    if a <= b {
        a
    } else {
        b
    }
}

/// The oldest of some candidates are chosen: none but candidates, none before an older one, and
/// as many as may be.
pub open spec fn chooses_oldest(chosen: Seq<bool>, candidates: Seq<bool>, cap: nat) -> bool {
    &&& chosen.len() == candidates.len()
    &&& forall|i: int| 0 <= i < chosen.len() && #[trigger] chosen[i] ==> candidates[i]
    &&& forall|i: int, j: int|
        0 <= i < j < chosen.len() && #[trigger] candidates[i] && #[trigger] chosen[j] ==> chosen[i]
    &&& tally(chosen) == least(cap, tally(candidates))
}

/// More marks before a later position.
proof fn lemma_count_grows(marks: Seq<bool>, i: int, j: int)
    requires
        0 <= i <= j,
    ensures
        count_before(marks, i) <= count_before(marks, j),
    decreases j,
{
    if i < j {
        lemma_count_grows(marks, i, j - 1);
    }
}

/// The first marks that are set are the oldest.
proof fn lemma_oldest(marks: Seq<bool>, cap: nat)
    ensures
        chooses_oldest(oldest(marks, cap), marks, cap),
{
    let chosen = oldest(marks, cap);
    assert forall|i: int, j: int|
        0 <= i < j < chosen.len() && #[trigger] marks[i] && #[trigger] chosen[j] implies chosen[i] by {
        lemma_count_grows(marks, i, j);
    }
    lemma_oldest_count(marks, cap, marks.len() as int);
    lemma_tally(marks, marks.len() as int);
    lemma_tally(chosen, marks.len() as int);
    assert(marks.take(marks.len() as int) =~= marks);
    assert(chosen.take(marks.len() as int) =~= chosen);
}

/// As many marks are chosen as there are, up to the cap.
proof fn lemma_oldest_count(marks: Seq<bool>, cap: nat, n: int)
    requires
        0 <= n <= marks.len(),
    ensures
        count_before(oldest(marks, cap), n) == least(cap, count_before(marks, n)),
    decreases n,
{
    if n > 0 {
        lemma_oldest_count(marks, cap, n - 1);
    }
}

/// The turns that go are the oldest: any message but a system message, the most recent user
/// message and the pinned one, and no more than allowed.
pub proof fn law_the_oldest_turns_go(
    messages: Seq<MessageView>,
    pin: Option<int>,
    cap: nat,
)
    ensures
        ({
            let candidates = Seq::new(
                messages.len(),
                |i: int|
                    messages[i].role != MessageRole::System && pin != Some(i) && !(messages[i].role
                        == MessageRole::User && forall|k: int|
                        i < k < messages.len() ==> (#[trigger] messages[k]).role
                            != MessageRole::User),
            );
            chooses_oldest(removable_turns(messages, pin, cap), candidates, cap)
        }),
{
    let candidates = Seq::new(
        messages.len(),
        |i: int|
            messages[i].role != MessageRole::System && pin != Some(i) && !(messages[i].role
                == MessageRole::User && forall|k: int|
                i < k < messages.len() ==> (#[trigger] messages[k]).role != MessageRole::User),
    );
    let marks = Seq::new(messages.len(), |i: int| is_removable(messages, pin, i));
    assert(marks =~= candidates);
    lemma_oldest(marks, cap);
}

/// What slides out of a window is the oldest: any message but the first system message, the most
/// recent user message and the pinned one, and no more than there is no room for.
pub proof fn law_the_oldest_messages_slide_out(
    messages: Seq<MessageView>,
    pin: Option<int>,
    keep: nat,
)
    requires
        keep <= messages.len(),
    ensures
        ({
            let candidates = Seq::new(
                messages.len(),
                |i: int|
                    pin != Some(i) && !(messages[i].role == MessageRole::User && forall|k: int|
                        i < k < messages.len() ==> (#[trigger] messages[k]).role
                            != MessageRole::User) && !(messages[i].role == MessageRole::System
                        && forall|k: int|
                        0 <= k < i ==> (#[trigger] messages[k]).role != MessageRole::System),
            );
            chooses_oldest(
                window_drop(messages, pin, keep),
                candidates,
                (messages.len() - keep) as nat,
            )
        }),
{
    let candidates = Seq::new(
        messages.len(),
        |i: int|
            pin != Some(i) && !(messages[i].role == MessageRole::User && forall|k: int|
                i < k < messages.len() ==> (#[trigger] messages[k]).role != MessageRole::User)
                && !(messages[i].role == MessageRole::System && forall|k: int|
                0 <= k < i ==> (#[trigger] messages[k]).role != MessageRole::System),
    );
    let marks = Seq::new(messages.len(), |i: int| is_unprotected(messages, pin, i));
    assert(marks =~= candidates);
    lemma_oldest(marks, (messages.len() - keep) as nat);
}

/// The observations that go are the oldest: system messages after another one, and no more than
/// allowed.
pub proof fn law_the_oldest_observations_go(messages: Seq<MessageView>, cap: nat)
    ensures
        ({
            let candidates = Seq::new(
                messages.len(),
                |i: int|
                    messages[i].role == MessageRole::System && exists|k: int|
                        0 <= k < i && (#[trigger] messages[k]).role == MessageRole::System,
            );
            chooses_oldest(observations_drop(messages, cap), candidates, cap)
        }),
{
    let candidates = Seq::new(
        messages.len(),
        |i: int|
            messages[i].role == MessageRole::System && exists|k: int|
                0 <= k < i && (#[trigger] messages[k]).role == MessageRole::System,
    );
    let marks = Seq::new(
        messages.len(),
        |i: int| is_observation(messages, i),
    );
    assert(marks =~= candidates);
    lemma_oldest(marks, cap);
}

/// Marks that hold others are more.
proof fn lemma_tally_grows(a: Seq<bool>, b: Seq<bool>)
    requires
        a.len() == b.len(),
        forall|i: int| 0 <= i < a.len() && #[trigger] a[i] ==> b[i],
    ensures
        tally(a) <= tally(b),
    decreases a.len(),
{
    if a.len() > 0 {
        assert forall|i: int| 0 <= i < a.drop_last().len() && #[trigger] a.drop_last()[i] implies b.drop_last()[i] by {
            assert(a[i]);
        }
        lemma_tally_grows(a.drop_last(), b.drop_last());
        assert(a.last() == a[a.len() - 1]);
    }
}

/// All but few are candidates.
proof fn lemma_few_protected(messages: Seq<MessageView>, pin: Option<int>, n: int)
    requires
        0 <= n <= messages.len(),
    ensures
        ({
            let marks = Seq::new(messages.len(), |i: int| is_unprotected(messages, pin, i));
            let one = if exists|i: int| 0 <= i < n && first_of(messages, MessageRole::System, i) {
                1int
            } else {
                0int
            };
            let two = if exists|i: int| 0 <= i < n && last_of(messages, MessageRole::User, i) {
                1int
            } else {
                0int
            };
            let three = if exists|i: int| 0 <= i < n && pin == Some(i) {
                1int
            } else {
                0int
            };
            count_before(marks, n) >= n - one - two - three
        }),
    decreases n,
{
    if n > 0 {
        lemma_few_protected(messages, pin, n - 1);
        let marks = Seq::new(messages.len(), |i: int| is_unprotected(messages, pin, i));
        let k = n - 1;
        if first_of(messages, MessageRole::System, k) {
            assert forall|i: int| 0 <= i < k implies !first_of(messages, MessageRole::System, i) by {
                assert(messages[i].role != MessageRole::System);
            }
        }
        if last_of(messages, MessageRole::User, k) {
            assert forall|i: int| 0 <= i < k implies !last_of(messages, MessageRole::User, i) by {
                if last_of(messages, MessageRole::User, i) {
                    assert(messages[k].role != MessageRole::User);
                }
            }
        }
        assert(exists|i: int| 0 <= i < k && first_of(messages, MessageRole::System, i) ==> exists|
            i: int,
        | 0 <= i < n && first_of(messages, MessageRole::System, i));
    }
}

/// A window leaves as many messages as it keeps, and never more than three beyond that: the first
/// system message, the most recent user message and the pinned one.
pub proof fn law_windows_leave_what_they_keep(
    env: MemoryEnv,
    keep: usize,
    before: Talk,
    after: Talk,
    outcome: Outcome,
)
    requires
        strategy_step(
            env,
            CompactionStrategy::SlidingWindow { keep_messages: keep },
            before,
            after,
            outcome,
        ),
    ensures
        before.messages.len() <= keep ==> after == before && outcome is Idle,
        before.messages.len() > keep ==> outcome == Outcome::Acted(CompressionAction::Slid),
        after.messages.len() <= keep || after.messages.len() <= 3,
{
    let messages = before.messages;
    if messages.len() > keep {
        let marks = slide_drop(before, keep as nat);
        let window = window_drop(messages, before.pin, keep as nat);
        let spared = protected(messages, before.pin);
        lemma_paired(messages, window, spared);
        lemma_tally_grows(window, marks);
        let candidates = Seq::new(messages.len(), |i: int| is_unprotected(messages, before.pin, i));
        lemma_oldest(candidates, (messages.len() - keep) as nat);
        lemma_few_protected(messages, before.pin, messages.len() as int);
        let n = messages.len() as int;
        lemma_tally(candidates, n);
        assert(candidates.take(n) =~= candidates);
        lemma_tally(marks, n);
        assert(marks.take(n) =~= marks);
        lemma_kept(messages, marks, 0, 0);
    }
}

/// A step says what it did by the name of its strategy, and a step that has nothing to do, or
/// fails, leaves the conversation as it is. Turns that go make a conversation shorter.
pub proof fn law_steps_say_what_they_did(
    env: MemoryEnv,
    strategy: CompactionStrategy,
    before: Talk,
    after: Talk,
    outcome: Outcome,
)
    requires
        strategy_step(env, strategy, before, after, outcome),
    ensures
        outcome matches Outcome::Acted(action) ==> match strategy {
            CompactionStrategy::Offload { .. } => action == CompressionAction::Offloaded,
            CompactionStrategy::Summarize { .. } => action == CompressionAction::Summarized,
            CompactionStrategy::DeduplicateFileReads { .. } => action
                == CompressionAction::DeduplicatedFileReads,
            CompactionStrategy::ClearToolResults { .. } => action
                == CompressionAction::ClearedToolResults,
            CompactionStrategy::ClampOversizedMessages { .. } => action
                == CompressionAction::ClampedParts,
            CompactionStrategy::SlidingWindow { .. } => action == CompressionAction::Slid,
            CompactionStrategy::DropObservations => action
                == CompressionAction::DroppedObservations,
            CompactionStrategy::DropTurns => action == CompressionAction::DroppedTurns,
        },
        outcome is Failed ==> after == before && strategy is Offload,
        strategy is Offload && env.store is None ==> outcome is Idle && after == before,
        strategy is Summarize && env.summarizer is None ==> outcome is Idle && after == before,
        outcome is Acted && (strategy is Offload || strategy is DropTurns || strategy
            is DropObservations) ==> after.messages.len() < before.messages.len(),
        outcome is Idle && (strategy is Offload || strategy is Summarize || strategy is DropTurns
            || strategy is SlidingWindow) ==> after == before,
{
    let messages = before.messages;
    let n = messages.len() as int;
    match strategy {
        CompactionStrategy::Offload { turns } => {
            lemma_turns_shrink(before, turns as nat);
        },
        CompactionStrategy::DropTurns => {
            lemma_turns_shrink(before, env.offload_turns);
        },
        CompactionStrategy::DropObservations => {
            let marks = observations_drop(messages, env.max_observations);
            lemma_marks_shrink(messages, marks);
        },
        _ => {},
    }
}

/// Where something is marked, less stays.
proof fn lemma_marks_shrink(messages: Seq<MessageView>, marks: Seq<bool>)
    requires
        marks.len() == messages.len(),
    ensures
        any_marked(marks) ==> without(messages, marks).len() < messages.len(),
{
    let n = messages.len() as int;
    lemma_kept(messages, marks, 0, 0);
    if any_marked(marks) {
        let k = choose|k: int| 0 <= k < marks.len() && #[trigger] marks[k];
        lemma_count_grows(marks, k + 1, n);
        assert(count_before(marks, k + 1) == count_before(marks, k) + 1);
    }
}

/// Turns that go are fewer.
proof fn lemma_turns_shrink(t: Talk, turns: nat)
    ensures
        any_marked(removable_turns(t.messages, t.pin, turns)) ==> without(
            t.messages,
            turns_drop(t, turns),
        ).len() < t.messages.len(),
{
    let oldest_turns = removable_turns(t.messages, t.pin, turns);
    let marks = turns_drop(t, turns);
    lemma_paired(t.messages, oldest_turns, protected(t.messages, t.pin));
    if any_marked(oldest_turns) {
        let k = choose|k: int| 0 <= k < oldest_turns.len() && #[trigger] oldest_turns[k];
        assert(marks[k]);
        lemma_marks_shrink(t.messages, marks);
    }
}

/// Whether one place of an output comes before another: by message, the tool's own message before
/// its blocks, and by block.
pub open spec fn comes_before(a: (int, Option<int>), b: (int, Option<int>)) -> bool {
    a.0 < b.0 || (a.0 == b.0 && match (a.1, b.1) {
        (None, Some(_)) => true,
        (Some(x), Some(y)) => x < y,
        _ => false,
    })
}

/// The places of results among blocks, in order.
proof fn lemma_places_of_blocks(content: Seq<BlockView>, i: int)
    ensures
        forall|k: int|
            0 <= k < block_places(content, i).len() ==> {
                let at = #[trigger] block_places(content, i)[k];
                at.0 == i && (at.1 matches Some(b) && 0 <= b < content.len() && content[b]
                    is ToolResult)
            },
        forall|k: int, j: int|
            0 <= k < j < block_places(content, i).len() ==> comes_before(
                #[trigger] block_places(content, i)[k],
                #[trigger] block_places(content, i)[j],
            ),
        forall|b: int|
            0 <= b < content.len() && #[trigger] content[b] is ToolResult ==> block_places(
                content,
                i,
            ).contains((i, Some(b))),
    decreases content.len(),
{
    if content.len() > 0 {
        let rest = content.drop_last();
        lemma_places_of_blocks(rest, i);
        let before = block_places(rest, i);
        let now = block_places(content, i);
        assert forall|b: int| 0 <= b < content.len() && #[trigger] content[b] is ToolResult implies now.contains(
            (i, Some(b)),
        ) by {
            if b < rest.len() {
                assert(rest[b] is ToolResult);
                assert(before.contains((i, Some(b))));
                let k = choose|k: int| 0 <= k < before.len() && before[k] == (i, Some(b));
                assert(now[k] == (i, Some(b)));
            } else {
                assert(now[now.len() - 1] == (i, Some(b)));
            }
        }
    }
}

/// The outputs of a conversation are the messages of tools and the results among blocks, each
/// once, in order.
pub proof fn law_every_output_has_its_place(messages: Seq<MessageView>, i: int, b: int)
    requires
        0 <= i < messages.len(),
    ensures
        ({
            let at = result_places(messages);
            &&& at.contains((i, None)) <==> messages[i].role == MessageRole::Tool
                && messages[i].tool_call_id is Some
            &&& 0 <= b < messages[i].content.len() ==> (at.contains((i, Some(b)))
                <==> messages[i].content[b] is ToolResult)
            &&& forall|k: int, j: int|
                0 <= k < j < at.len() ==> comes_before(#[trigger] at[k], #[trigger] at[j])
        }),
{
    lemma_output_places(messages, i, b);
}

/// The outputs of messages, in order.
proof fn lemma_output_places(messages: Seq<MessageView>, i: int, b: int)
    ensures
        ({
            let at = result_places(messages);
            &&& 0 <= i < messages.len() ==> (at.contains((i, None)) <==> messages[i].role
                == MessageRole::Tool && messages[i].tool_call_id is Some)
            &&& 0 <= i < messages.len() && 0 <= b < messages[i].content.len() ==> (at.contains(
                (i, Some(b)),
            ) <==> messages[i].content[b] is ToolResult)
            &&& forall|k: int| 0 <= k < at.len() ==> 0 <= (#[trigger] at[k]).0 < messages.len()
            &&& forall|k: int, j: int|
                0 <= k < j < at.len() ==> comes_before(#[trigger] at[k], #[trigger] at[j])
        }),
    decreases messages.len(),
{
    if messages.len() > 0 {
        let rest = messages.drop_last();
        let n = messages.len() - 1;
        lemma_output_places(rest, i, b);
        let before = result_places(rest);
        let m = messages.last();
        let here = message_places(m, n);
        let blocks = block_places(m.content, n);
        let now = result_places(messages);
        lemma_places_of_blocks(m.content, n);
        assert(now == before + here);
        let own = m.role == MessageRole::Tool && m.tool_call_id is Some;
        assert(here == (if own {
            seq![(n, None::<int>)]
        } else {
            Seq::empty()
        }) + blocks);
        let skip = if own {
            1int
        } else {
            0int
        };
        assert forall|k: int| 0 <= k < here.len() implies (#[trigger] here[k]).0 == n by {
            if k >= skip {
                assert(here[k] == blocks[k - skip]);
            }
        }
        assert forall|k: int, j: int| 0 <= k < j < here.len() implies comes_before(
            #[trigger] here[k],
            #[trigger] here[j],
        ) by {
            assert(here[j] == blocks[j - skip]);
            if k >= skip {
                assert(here[k] == blocks[k - skip]);
            }
        }
        assert forall|k: int, j: int| 0 <= k < j < now.len() implies comes_before(
            #[trigger] now[k],
            #[trigger] now[j],
        ) by {
            if j >= before.len() {
                assert(now[j] == here[j - before.len()]);
                if k >= before.len() {
                    assert(now[k] == here[k - before.len()]);
                } else {
                    assert(now[k] == before[k]);
                }
            } else {
                assert(now[k] == before[k] && now[j] == before[j]);
            }
        }
        assert forall|k: int| 0 <= k < now.len() implies 0 <= (#[trigger] now[k]).0
            < messages.len() by {
            if k < before.len() {
                assert(now[k] == before[k]);
            } else {
                assert(now[k] == here[k - before.len()]);
            }
        }
        lemma_place_in_parts(before, here, (i, None));
        lemma_place_in_parts(before, here, (i, Some(b)));
        if 0 <= i < n {
            assert(rest[i] == messages[i]);
            if here.contains((i, None)) {
                let k = choose|k: int| 0 <= k < here.len() && here[k] == (i, None::<int>);
                assert(here[k].0 == n);
            }
            if here.contains((i, Some(b))) {
                let k = choose|k: int| 0 <= k < here.len() && here[k] == (i, Some(b));
                assert(here[k].0 == n);
            }
        } else if i == n {
            if before.contains((i, None)) {
                let k = choose|k: int| 0 <= k < before.len() && before[k] == (i, None::<int>);
                assert(before[k].0 < rest.len());
            }
            if before.contains((i, Some(b))) {
                let k = choose|k: int| 0 <= k < before.len() && before[k] == (i, Some(b));
                assert(before[k].0 < rest.len());
            }
            if own {
                assert(here[0] == (n, None::<int>));
            }
            if here.contains((i, None)) && !own {
                let k = choose|k: int| 0 <= k < here.len() && here[k] == (i, None::<int>);
                assert(here[k] == blocks[k]);
            }
            if 0 <= b < m.content.len() {
                if m.content[b] is ToolResult {
                    assert(blocks.contains((n, Some(b))));
                    let k = choose|k: int| 0 <= k < blocks.len() && blocks[k] == (n, Some(b));
                    assert(here[k + skip] == (n, Some(b)));
                }
                if here.contains((i, Some(b))) {
                    let k = choose|k: int| 0 <= k < here.len() && here[k] == (i, Some(b));
                    assert(k >= skip);
                    assert(here[k] == blocks[k - skip]);
                }
            }
        }
    }
}

/// What is in one of two parts is in the whole.
proof fn lemma_place_in_parts(
    a: Seq<(int, Option<int>)>,
    b: Seq<(int, Option<int>)>,
    x: (int, Option<int>),
)
    ensures
        (a + b).contains(x) <==> a.contains(x) || b.contains(x),
{
    if a.contains(x) {
        let k = choose|k: int| 0 <= k < a.len() && a[k] == x;
        assert((a + b)[k] == x);
    }
    if b.contains(x) {
        let k = choose|k: int| 0 <= k < b.len() && b[k] == x;
        assert((a + b)[k + a.len()] == x);
    }
    if (a + b).contains(x) {
        let k = choose|k: int| 0 <= k < (a + b).len() && (a + b)[k] == x;
        if k < a.len() {
            assert(a[k] == x);
        } else {
            assert(b[k - a.len()] == x);
        }
    }
}

/// The output at a place takes in the block: the result there, or a text of a tool's message.
pub open spec fn covers(m: MessageView, at: (int, Option<int>), i: int, b: int) -> bool {
    at.0 == i && match at.1 {
        Some(c) => c == b && m.content[b] is ToolResult,
        None => m.content[b] is Text,
    }
}

/// One of the places takes in the block.
pub open spec fn any_covers(
    m: MessageView,
    at: Seq<(int, Option<int>)>,
    i: int,
    b: int,
) -> bool {
    exists|k: int| 0 <= k < at.len() && covers(m, #[trigger] at[k], i, b)
}

/// Emptying outputs at places empties exactly what they take in.
proof fn lemma_blank_all(messages: Seq<MessageView>, at: Seq<(int, Option<int>)>)
    requires
        forall|k: int| 0 <= k < at.len() ==> in_bounds(messages, #[trigger] at[k]),
        forall|k: int|
            0 <= k < at.len() ==> ((#[trigger] at[k]).1 matches Some(b)
                ==> messages[at[k].0].content[b] is ToolResult),
    ensures
        ({
            let after = blank_all(messages, at).0;
            &&& after.len() == messages.len()
            &&& forall|i: int|
                0 <= i < messages.len() ==> (#[trigger] after[i]).content.len()
                    == messages[i].content.len() && after[i].role == messages[i].role
                    && after[i].name == messages[i].name && after[i].tool_call_id
                    == messages[i].tool_call_id
            &&& forall|i: int, b: int|
                0 <= i < messages.len() && 0 <= b < messages[i].content.len()
                    ==> #[trigger] after[i].content[b] == (if any_covers(messages[i], at, i, b) {
                    emptied(messages[i].content[b])
                } else {
                    messages[i].content[b]
                })
            &&& blank_all(messages, at).1 <==> exists|k: int|
                0 <= k < at.len() && holds_output(messages, #[trigger] at[k])
        }),
    decreases at.len(),
{
    if at.len() > 0 {
        let fewer = at.drop_last();
        assert forall|k: int| 0 <= k < fewer.len() implies in_bounds(messages, #[trigger] fewer[k]) by {
            assert(fewer[k] == at[k]);
        }
        assert forall|k: int| 0 <= k < fewer.len() implies ((#[trigger] fewer[k]).1 matches Some(b)
            ==> messages[fewer[k].0].content[b] is ToolResult) by {
            assert(fewer[k] == at[k]);
        }
        lemma_blank_all(messages, fewer);
        let before = blank_all(messages, fewer).0;
        let last = at.last();
        assert(last == at[at.len() - 1]);
        assert(in_bounds(messages, last));
        let after = blank_at(before, last);
        assert(before[last.0].content.len() == messages[last.0].content.len());
        assert forall|i: int, b: int|
            0 <= i < messages.len() && 0 <= b < messages[i].content.len() implies #[trigger] after[i].content[b]
            == (if any_covers(messages[i], at, i, b) {
            emptied(messages[i].content[b])
        } else {
            messages[i].content[b]
        }) by {
            assert(before[i].content.len() == messages[i].content.len());
            assert(before[i].content[b] == (if any_covers(messages[i], fewer, i, b) {
                emptied(messages[i].content[b])
            } else {
                messages[i].content[b]
            }));
            if any_covers(messages[i], fewer, i, b) {
                let k = choose|k: int|
                    0 <= k < fewer.len() && covers(messages[i], #[trigger] fewer[k], i, b);
                assert(covers(messages[i], at[k], i, b));
            }
            if covers(messages[i], last, i, b) {
                assert(covers(messages[i], at[at.len() - 1], i, b));
            }
            if any_covers(messages[i], at, i, b) && !covers(messages[i], last, i, b) {
                let k = choose|k: int|
                    0 <= k < at.len() && covers(messages[i], #[trigger] at[k], i, b);
                assert(covers(messages[i], fewer[k], i, b));
            }
        }
        assert(holds_output(before, last) == holds_output(messages, last)) by {
            match last.1 {
                Some(b) => {
                    assert(before[last.0].content[b] is ToolResult);
                },
                None => {
                    if has_text(messages[last.0]) {
                        let b = choose|b: int|
                            0 <= b < messages[last.0].content.len()
                                && #[trigger] messages[last.0].content[b] is Text;
                        assert(before[last.0].content[b] is Text);
                    }
                    if has_text(before[last.0]) {
                        let b = choose|b: int|
                            0 <= b < before[last.0].content.len()
                                && #[trigger] before[last.0].content[b] is Text;
                        assert(messages[last.0].content[b] is Text);
                    }
                },
            }
        }
        if exists|k: int| 0 <= k < fewer.len() && holds_output(messages, #[trigger] fewer[k]) {
            let k = choose|k: int| 0 <= k < fewer.len() && holds_output(
                messages,
                #[trigger] fewer[k],
            );
            assert(holds_output(messages, at[k]));
        }
        if exists|k: int| 0 <= k < at.len() && holds_output(messages, #[trigger] at[k]) {
            let k = choose|k: int| 0 <= k < at.len() && holds_output(messages, #[trigger] at[k]);
            if k < fewer.len() {
                assert(holds_output(messages, fewer[k]));
            }
        }
    }
}

/// The newest outputs stay, and every older one is emptied, with nothing else touched: of the
/// outputs of a conversation, all but the last `keep`.
pub proof fn law_only_the_newest_outputs_stay(
    messages: Seq<MessageView>,
    keep: nat,
    i: int,
    b: int,
)
    requires
        0 <= i < messages.len(),
        0 <= b < messages[i].content.len(),
    ensures
        ({
            let at = result_places(messages);
            let gone = if at.len() <= keep {
                0
            } else {
                at.len() - keep
            };
            let after = cleared(messages, keep).0;
            &&& after.len() == messages.len()
            &&& after[i].role == messages[i].role
            &&& after[i].name == messages[i].name
            &&& after[i].tool_call_id == messages[i].tool_call_id
            &&& after[i].content.len() == messages[i].content.len()
            &&& (exists|k: int| 0 <= k < gone && covers(messages[i], #[trigger] at[k], i, b))
                ==> after[i].content[b] == emptied(messages[i].content[b])
            &&& (forall|k: int| 0 <= k < gone ==> !covers(messages[i], #[trigger] at[k], i, b))
                ==> after[i].content[b] == messages[i].content[b]
        }),
{
    let at = result_places(messages);
    lemma_result_places(messages);
    if at.len() > keep {
        let gone = at.len() - keep;
        let first = at.take(gone);
        assert forall|k: int| 0 <= k < first.len() implies in_bounds(messages, #[trigger] first[k]) by {
            assert(first[k] == at[k]);
        }
        assert forall|k: int| 0 <= k < first.len() implies ((#[trigger] first[k]).1 matches Some(c)
            ==> messages[first[k].0].content[c] is ToolResult) by {
            let p = first[k];
            assert(at[k] == p);
            assert(in_bounds(messages, p));
            if let Some(c) = p.1 {
                assert(at.contains((p.0, Some(c))));
                law_every_output_has_its_place(messages, p.0, c);
            }
        }
        lemma_blank_all(messages, first);
        let after = cleared(messages, keep).0;
        assert(after[i].content.len() == messages[i].content.len());
        if exists|k: int| 0 <= k < gone && covers(messages[i], #[trigger] at[k], i, b) {
            let k = choose|k: int| 0 <= k < gone && covers(messages[i], #[trigger] at[k], i, b);
            assert(covers(messages[i], first[k], i, b));
            assert(any_covers(messages[i], first, i, b));
        }
        if any_covers(messages[i], first, i, b) {
            let k = choose|k: int|
                0 <= k < first.len() && covers(messages[i], #[trigger] first[k], i, b);
            assert(covers(messages[i], at[k], i, b));
        }
    }
}

/// A block that has more tokens than allowed is cut, and every other block stays: a long text
/// keeps a quarter from each end around the mark of the cut, and a short one is the mark alone.
/// Ids, names and signatures stay.
pub proof fn law_long_blocks_are_cut(
    encoder: Encoder,
    max: u32,
    messages: Seq<MessageView>,
    i: int,
    b: int,
)
    requires
        0 <= i < messages.len(),
        0 <= b < messages[i].content.len(),
    ensures
        ({
            let after = clamp_messages(encoder, max, messages);
            let block = messages[i].content[b];
            let now = after[i].content[b];
            &&& after.len() == messages.len()
            &&& after[i].role == messages[i].role
            &&& after[i].name == messages[i].name
            &&& after[i].tool_call_id == messages[i].tool_call_id
            &&& after[i].content.len() == messages[i].content.len()
            &&& match block {
                BlockView::Text(text) => now == BlockView::Text(cut(encoder, max, text)),
                BlockView::Thinking { reasoning, signature } => now == (BlockView::Thinking {
                    reasoning: cut(encoder, max, reasoning),
                    signature,
                }),
                BlockView::ToolResult { tool_call_id, output } => now == (BlockView::ToolResult {
                    tool_call_id,
                    output: cut(encoder, max, output),
                }),
                BlockView::ToolCall { id, name, arguments } => match arguments {
                    JsonView::String(text) => now == (BlockView::ToolCall {
                        id,
                        name,
                        arguments: JsonView::String(cut(encoder, max, text)),
                    }),
                    _ => now == block,
                },
                BlockView::ImageBase64 { .. } => now == block,
            }
        }),
{
}

/// A text, cut where it has more tokens than allowed.
pub open spec fn cut(encoder: Encoder, max: u32, text: Seq<char>) -> Seq<char> {
    match text_tokens(encoder, text) {
        Some(tokens) => if tokens.len() % 0x1_0000_0000 > max {
            clamped_text(text)
        } else {
            text
        },
        None => text,
    }
}

/// A text that is cut keeps its first and its last quarter, with the mark of the cut between
/// them; one that is hardly longer than the mark is the mark alone.
pub proof fn law_cut_texts_keep_both_ends(text: Seq<char>)
    ensures
        ({
            let mark = "\n\u{2026}[truncated]\u{2026}\n"@;
            let side = (text.len() / 4) as int;
            let now = clamped_text(text);
            &&& text.len() <= 2 * mark.len() ==> now == mark
            &&& text.len() > 2 * mark.len() ==> {
                &&& now.len() == 2 * side + mark.len()
                &&& now.take(side) == text.take(side)
                &&& now.subrange(side, side + mark.len()) == mark
                &&& now.skip(side + mark.len()) == text.skip(text.len() - side)
            }
        }),
{
    let mark = "\n\u{2026}[truncated]\u{2026}\n"@;
    let side = (text.len() / 4) as int;
    let now = clamped_text(text);
    if text.len() > 2 * mark.len() {
        assert(now.take(side) =~= text.take(side));
        assert(now.subrange(side, side + mark.len()) =~= mark);
        assert(now.skip(side + mark.len()) =~= text.skip(text.len() - side));
    }
}

/// That something was cut is said exactly where a block has more tokens than allowed.
pub proof fn law_cuts_are_reported(
    env: MemoryEnv,
    max: u32,
    before: Talk,
    after: Talk,
    outcome: Outcome,
)
    requires
        strategy_step(
            env,
            CompactionStrategy::ClampOversizedMessages { max_part_tokens: max },
            before,
            after,
            outcome,
        ),
    ensures
        outcome is Acted <==> exists|i: int, b: int|
            0 <= i < before.messages.len() && 0 <= b < before.messages[i].content.len() && (
            part_of(#[trigger] before.messages[i].content[b]) matches Some(text) && (text_tokens(
                env.encoder,
                text,
            ) matches Some(tokens) && tokens.len() % 0x1_0000_0000 > max)),
        after.pin == before.pin,
{
    let messages = before.messages;
    if any_cut(env.encoder, max, messages) {
        let (i, b) = choose|i: int, b: int|
            0 <= i < messages.len() && 0 <= b < messages[i].content.len() && #[trigger] is_cut(
                env.encoder,
                max,
                messages[i].content[b],
            );
        let block = messages[i].content[b];
        assert(is_oversized(env.encoder, part_of(block)->0, max));
        assert(part_of(messages[i].content[b]) is Some);
    }
    if exists|i: int, b: int|
        0 <= i < messages.len() && 0 <= b < messages[i].content.len() && (part_of(
            #[trigger] messages[i].content[b],
        ) matches Some(text) && (text_tokens(env.encoder, text) matches Some(tokens)
            && tokens.len() % 0x1_0000_0000 > max)) {
        let (i, b) = choose|i: int, b: int|
            0 <= i < messages.len() && 0 <= b < messages[i].content.len() && (part_of(
                #[trigger] messages[i].content[b],
            ) matches Some(text) && (text_tokens(env.encoder, text) matches Some(tokens)
                && tokens.len() % 0x1_0000_0000 > max));
        assert(is_cut(env.encoder, max, messages[i].content[b]));
    }
}

/// A conversation counts the tokens of its messages together, as far as a count goes: of each the
/// name of its role, a space, and its texts with spaces between them.
pub proof fn law_every_message_is_measured(
    encoder: Encoder,
    messages: Seq<MessageView>,
    message: MessageView,
    n: u32,
    m: u32,
    added: Seq<u32>,
)
    requires
        measured(encoder, messages) == Some(n),
        measured(encoder, messages.push(message)) == Some(m),
        text_tokens(encoder, counted_text(message)) == Some(added),
    ensures
        m == (n + added.len()) % 0x1_0000_0000,
        measured(encoder, Seq::empty()) == Some(0u32),
{
    let before = counted_texts(messages);
    let now = counted_texts(messages.push(message));
    assert(now.drop_last() =~= before);
    assert(now.last() == counted_text(message));
    assert(token_count(encoder, counted_text(message)) == Some(added.len()));
    let x = token_sum(encoder, before)->0;
    assert((x + added.len()) % 0x1_0000_0000 == (x % 0x1_0000_0000 + added.len()) % 0x1_0000_0000)
        by (nonlinear_arith);
    assert(counted_texts(Seq::empty()) =~= Seq::<Seq<char>>::empty());
}

/// What is counted of a message: the name of its role, a space, and its texts in order, with
/// spaces between them. Blocks other than texts count nothing.
pub proof fn law_texts_are_measured(message: MessageView, block: BlockView)
    ensures
        ({
            let bare = MessageView { content: Seq::empty(), ..message };
            let more = MessageView { content: message.content.push(block), ..message };
            let first = MessageView { content: seq![block], ..message };
            let role = match message.role {
                MessageRole::System => "system"@,
                MessageRole::User => "user"@,
                MessageRole::Assistant => "assistant"@,
                MessageRole::Tool => "tool"@,
            };
            &&& counted_text(bare) == role + " "@
            &&& !(block is Text) ==> counted_text(more) == counted_text(message)
            &&& block matches BlockView::Text(text) ==> {
                &&& counted_text(first) == role + " "@ + text
                &&& has_text(message) ==> counted_text(more) == counted_text(message) + " "@ + text
                &&& !has_text(message) ==> counted_text(more) == counted_text(message) + text
            }
        }),
{
    let bare = MessageView { content: Seq::empty(), ..message };
    let more = MessageView { content: message.content.push(block), ..message };
    let first = MessageView { content: seq![block], ..message };
    assert(more.content.drop_last() =~= message.content);
    assert(first.content.drop_last() =~= Seq::<BlockView>::empty());
    let role = role_name(message.role);
    assert(counted_text(bare) =~= role + " "@);
    lemma_joined(message.content);
    let here = joined_blocks(message.content);
    if let BlockView::Text(text) = block {
        assert(counted_text(first) =~= role + " "@ + text);
        if let Some(joined) = here {
            assert(counted_text(more) =~= counted_text(message) + " "@ + text);
        } else {
            assert(counted_text(more) =~= counted_text(message) + text);
        }
    }
}

/// There is a text to join exactly where there is one.
proof fn lemma_joined(content: Seq<BlockView>)
    ensures
        joined_blocks(content) is Some <==> exists|b: int|
            0 <= b < content.len() && #[trigger] content[b] is Text,
    decreases content.len(),
{
    if content.len() > 0 {
        let rest = content.drop_last();
        lemma_joined(rest);
        if exists|b: int| 0 <= b < rest.len() && #[trigger] rest[b] is Text {
            let b = choose|b: int| 0 <= b < rest.len() && #[trigger] rest[b] is Text;
            assert(content[b] is Text);
        }
        if exists|b: int| 0 <= b < content.len() && #[trigger] content[b] is Text {
            let b = choose|b: int| 0 <= b < content.len() && #[trigger] content[b] is Text;
            if b < rest.len() {
                assert(rest[b] is Text);
            } else {
                assert(content.last() is Text);
            }
        }
        if content.last() is Text {
            assert(content[content.len() - 1] is Text);
        }
    }
}

/// A cap on messages counts before one on tokens, and that before a fraction of the window;
/// without any there is no budget. A conversation is over a cap on messages when it has more, and
/// over one on tokens when it has as many.
pub proof fn law_budgets_go_by_messages_first(plugin: MemoryPlugin, fraction: u32, n: nat, used: u32)
    ensures
        ({
            let c = plugin.config();
            let over = exceeds_budget(plugin.budgeted(fraction), n, used);
            match (c.max_messages, c.max_tokens, c.max_fraction) {
                (Some(cap), _, _) => over <==> n > cap,
                (None, Some(cap), _) => over <==> used >= cap,
                (None, None, Some(_)) => over <==> used >= fraction,
                (None, None, None) => !over,
            }
        }),
{
}

/// A pass runs its steps in order. What was done before stays on record, an error only makes room
/// for the next step, and without a budget no step is passed over.
pub proof fn law_passes_run_every_step(
    env: MemoryEnv,
    budget: Budget,
    n: nat,
    s: PassState,
    t: PassState,
)
    requires
        pass_reached(env, budget, n, s, t),
        !s.stopped,
        !s.failed,
    ensures
        s.actions.len() <= t.actions.len(),
        t.actions.take(s.actions.len() as int) == s.actions,
        t.actions.len() <= s.actions.len() + n,
        budget == Budget::Unlimited ==> !t.stopped && !t.failed,
        t.stopped ==> (measured(env.encoder, t.talk.messages) matches Some(used)
            && !exceeds_budget(budget, t.talk.messages.len(), used)),
    decreases n,
{
    if n == 0 {
        assert(t.actions.take(s.actions.len() as int) =~= s.actions);
    } else {
        let mid = choose|mid: PassState|
            pass_reached(env, budget, (n - 1) as nat, s, mid) && #[trigger] nth_step(
                env,
                budget,
                n,
                mid,
                t,
            );
        law_passes_run_every_step(env, budget, (n - 1) as nat, s, mid);
        assert(pass_step(env, budget, env.strategies[n - 1], mid, t));
        if mid.stopped || mid.failed {
        } else {
            assert(t.actions.take(s.actions.len() as int) =~= mid.actions.take(
                s.actions.len() as int,
            ));
        }
    }
}

/// A step that fails is remembered, and the pass goes on; one that does something is put on
/// record, and ends the pass only where the conversation is then within its budget.
pub proof fn law_errors_do_not_end_a_pass(
    env: MemoryEnv,
    budget: Budget,
    strategy: CompactionStrategy,
    s: PassState,
    t: PassState,
)
    requires
        pass_step(env, budget, strategy, s, t),
        !s.stopped,
        !s.failed,
    ensures
        exists|outcome: Outcome|
            {
                &&& #[trigger] strategy_step(env, strategy, s.talk, t.talk, outcome)
                &&& outcome is Idle ==> t.actions == s.actions && t.last_error == s.last_error
                    && !t.stopped && !t.failed
                &&& outcome matches Outcome::Failed(text) ==> t.actions == s.actions
                    && t.last_error == Some(text) && !t.stopped && !t.failed
                &&& outcome matches Outcome::Acted(action) ==> {
                    &&& t.actions == s.actions.push(action)
                    &&& t.last_error == s.last_error
                    &&& t.stopped <==> budget != Budget::Unlimited && (measured(
                        env.encoder,
                        t.talk.messages,
                    ) matches Some(used) && !exceeds_budget(
                        budget,
                        t.talk.messages.len(),
                        used,
                    ))
                }
            },
{
    let (after, outcome) = choose|after: Talk, outcome: Outcome|
        #[trigger] strategy_step(env, strategy, s.talk, after, outcome) && t == match outcome {
            Outcome::Idle => PassState { talk: after, ..s },
            Outcome::Failed(text) => PassState { talk: after, last_error: Some(text), ..s },
            Outcome::Acted(action) => {
                let u = PassState { talk: after, actions: s.actions.push(action), ..s };
                if budget == Budget::Unlimited {
                    u
                } else {
                    match measured(env.encoder, after.messages) {
                        None => PassState { failed: true, ..u },
                        Some(used) => PassState {
                            stopped: !exceeds_budget(budget, after.messages.len(), used),
                            ..u
                        },
                    }
                }
            },
        };
    assert(strategy_step(env, strategy, s.talk, t.talk, outcome));
}

/// A compression reports the tokens before and after it, and what its steps did. Without a budget
/// it takes one pass, and with one at most four.
pub proof fn law_compressions_report_what_they_did(
    env: MemoryEnv,
    budget: Budget,
    before: Seq<MessageView>,
    after: Seq<MessageView>,
    r: Result<CompressionReport, PluginError>,
)
    requires
        compressed(env, budget, before, after, r),
    ensures
        r matches Ok(report) ==> {
            &&& measured(env.encoder, before) == Some(report.tokens_before)
            &&& measured(env.encoder, after) == Some(report.tokens_after)
            &&& budget == Budget::Unlimited ==> report.actions@.len() <= env.strategies.len()
            &&& report.actions@.len() <= 4 * env.strategies.len()
        },
        r matches Err(e) ==> is_untokenizable(e),
{
    if let Ok(report) = r {
        let (n, t) = choose|n: nat, t: PassState|
            #[trigger] compression_ends(env, budget, before, n, t) && after == t.talk.messages
                && report.actions@ == t.actions && !t.failed;
        lemma_rounds_actions(env, budget, n, pass_start(before), t);
        assert(n * env.strategies.len() <= 4 * env.strategies.len()) by (nonlinear_arith)
            requires
                n <= 4,
        ;
    }
}

/// Each pass adds at most as many actions as there are steps, and without a budget there is one.
proof fn lemma_rounds_actions(
    env: MemoryEnv,
    budget: Budget,
    n: nat,
    s: PassState,
    t: PassState,
)
    requires
        rounds(env, budget, n, s, t),
        !t.failed,
    ensures
        !s.failed,
        t.actions.len() <= s.actions.len() + n * env.strategies.len(),
        budget == Budget::Unlimited && n >= 1 ==> t.ended && n == 1,
    decreases n,
{
    if n > 0 {
        let mid = choose|mid: PassState|
            rounds(env, budget, (n - 1) as nat, s, mid) && !mid.ended && #[trigger] round(
                env,
                budget,
                mid,
                t,
            );
        let from = PassState { stopped: false, ..mid };
        let u = choose|u: PassState|
            #[trigger] pass_reached(env, budget, env.strategies.len(), from, u) && t == PassState {
                failed: u.failed || (budget != Budget::Unlimited && measured(
                    env.encoder,
                    u.talk.messages,
                ) is None),
                ended: !goes_on(env, budget, mid, u),
                ..u
            };
        if mid.failed {
            lemma_failed_stays(env, budget, env.strategies.len(), from, u);
        }
        law_passes_run_every_step(env, budget, env.strategies.len(), from, u);
        lemma_rounds_actions(env, budget, (n - 1) as nat, s, mid);
        assert(n * env.strategies.len() == (n - 1) * env.strategies.len() + env.strategies.len())
            by (nonlinear_arith);
    } else {
        assert(n * env.strategies.len() == 0) by (nonlinear_arith)
            requires
                n == 0,
        ;
    }
}

/// A pass that has failed stays so.
proof fn lemma_failed_stays(env: MemoryEnv, budget: Budget, n: nat, s: PassState, t: PassState)
    requires
        pass_reached(env, budget, n, s, t),
        s.failed,
    ensures
        t.failed,
    decreases n,
{
    if n > 0 {
        let mid = choose|mid: PassState|
            pass_reached(env, budget, (n - 1) as nat, s, mid) && #[trigger] nth_step(
                env,
                budget,
                n,
                mid,
                t,
            );
        lemma_failed_stays(env, budget, (n - 1) as nat, s, mid);
    }
}

/// A compression with a budget goes on after a pass exactly as long as the conversation is over its
/// budget and the pass did something.
pub proof fn law_compressions_go_on_while_they_help(
    env: MemoryEnv,
    budget: Budget,
    s: PassState,
    t: PassState,
)
    requires
        round(env, budget, s, t),
        budget != Budget::Unlimited,
        !t.failed,
    ensures
        ({
            let used = measured(env.encoder, t.talk.messages);
            let helped = t.actions.len() > s.actions.len() || t.talk.messages.len()
                != s.talk.messages.len();
            &&& used is Some
            &&& !t.ended <==> exceeds_budget(budget, t.talk.messages.len(), used->0) && helped
        }),
{
}

/// Near the limit the model is told so, once: a system message behind the others says it, and all
/// else stays. Away from the limit, or where it was told before, nothing is added.
pub proof fn law_a_full_window_is_warned_of(
    messages: Seq<MessageView>,
    gauge: WindowGauge,
    window: u32,
)
    ensures
        ({
            let after = with_warning(messages, gauge, window);
            let told = exists|i: int, k: int|
                0 <= i < messages.len() && 0 <= k < messages[i].content.len() && (
                #[trigger] messages[i].content[k] matches BlockView::Text(text) && has_substring(
                    text,
                    "CUCA context warning:"@,
                ));
            &&& !gauge.near_limit || told ==> after == messages
            &&& gauge.near_limit && !told ==> {
                &&& after.len() == messages.len() + 1
                &&& after.drop_last() == messages
                &&& after.last().role == MessageRole::System
                &&& after.last().content == seq![
                    BlockView::Text(
                        "CUCA context warning:"@ + " The conversation is at "@ + gauge.percent@
                            + "% of the "@ + decimal(window as nat)
                            + "-token context window; wrap up soon."@,
                    ),
                ]
            }
        }),
{
    let after = with_warning(messages, gauge, window);
    let told = exists|i: int, k: int|
        0 <= i < messages.len() && 0 <= k < messages[i].content.len() && (
        #[trigger] messages[i].content[k] matches BlockView::Text(text) && has_substring(
            text,
            "CUCA context warning:"@,
        ));
    if told {
        let (i, k) = choose|i: int, k: int|
            0 <= i < messages.len() && 0 <= k < messages[i].content.len() && (
            #[trigger] messages[i].content[k] matches BlockView::Text(text) && has_substring(
                text,
                "CUCA context warning:"@,
            ));
        assert(is_marked(messages[i].content[k], WARNING_MARKER@));
    }
    if holds_marker(messages, WARNING_MARKER@) {
        let (i, k) = choose|i: int, k: int|
            0 <= i < messages.len() && 0 <= k < messages[i].content.len() && #[trigger] is_marked(
                messages[i].content[k],
                WARNING_MARKER@,
            );
        assert(messages[i].content[k] is Text);
    } else if gauge.near_limit {
        assert(after.drop_last() =~= messages);
    }
}

} // verus!
