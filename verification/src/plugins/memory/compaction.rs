//! The steps that make a conversation shorter.
//!
//! A step that removes messages marks them first: the oldest that are eligible, and with each
//! tool call that goes, the messages that hold its result. The first system message, the most
//! recent user message, and the message that was the most recent user message when the
//! compression started are not eligible, and stay even where they hold such a result. The last
//! one is pointed at by a pin.

use crate::json::{json_member, lemma_json_view, Json, JsonView};
use crate::text::str_eq;
use crate::tokenize::{count_tokens, token_count, Encoder};
use crate::types::{
    block_views, message_views, texts, BlockView, MessageContentBlock, MessageRole, MessageView,
    UnifiedMessage,
};
use vstd::prelude::*;
use vstd::string::*;

verus! {

/// Message `i` is the first with the role.
pub open spec fn first_of(messages: Seq<MessageView>, role: MessageRole, i: int) -> bool {
    &&& 0 <= i < messages.len()
    &&& messages[i].role == role
    &&& forall|k: int| 0 <= k < i ==> (#[trigger] messages[k]).role != role
}

/// Message `i` is the last with the role.
pub open spec fn last_of(messages: Seq<MessageView>, role: MessageRole, i: int) -> bool {
    &&& 0 <= i < messages.len()
    &&& messages[i].role == role
    &&& forall|k: int| i < k < messages.len() ==> (#[trigger] messages[k]).role != role
}

/// The first message with the role.
pub fn first_with(messages: &Vec<UnifiedMessage>, role: MessageRole) -> (r: Option<usize>)
    ensures
        match r {
            Some(i) => first_of(message_views(messages@), role, i as int),
            None => forall|k: int| 0 <= k < messages@.len() ==> (#[trigger] messages@[k]).role != role,
        },
{
    let mut i: usize = 0;
    while i < messages.len()
        invariant
            i <= messages@.len(),
            forall|k: int| 0 <= k < i ==> (#[trigger] messages@[k]).role != role,
        decreases messages@.len() - i,
    {
        if messages[i].role == role {
            return Some(i);
        }
        i = i + 1;
    }
    None
}

/// The last message with the role.
pub fn last_with(messages: &Vec<UnifiedMessage>, role: MessageRole) -> (r: Option<usize>)
    ensures
        match r {
            Some(i) => last_of(message_views(messages@), role, i as int),
            None => forall|k: int| 0 <= k < messages@.len() ==> (#[trigger] messages@[k]).role != role,
        },
{
    let mut i: usize = messages.len();
    while i > 0
        invariant
            i <= messages@.len(),
            forall|k: int| i <= k < messages@.len() ==> (#[trigger] messages@[k]).role != role,
        decreases i,
    {
        i = i - 1;
        if messages[i].role == role {
            return Some(i);
        }
    }
    None
}

/// Whether an optional position is `i`.
fn is_at(position: Option<usize>, i: usize) -> (r: bool)
    ensures
        r == (position == Some(i)),
{
    match position {
        Some(p) => p == i,
        None => false,
    }
}

/// How many of the first `i` marks are set.
pub open spec fn count_before(marks: Seq<bool>, i: int) -> nat
    decreases i,
{
    if i <= 0 {
        0
    } else {
        count_before(marks, i - 1) + if marks[i - 1] {
            1nat
        } else {
            0nat
        }
    }
}

/// The first `cap` of the marks that are set.
pub open spec fn oldest(marks: Seq<bool>, cap: nat) -> Seq<bool> {
    Seq::new(marks.len(), |i: int| marks[i] && count_before(marks, i) < cap)
}

/// Some mark is set.
pub open spec fn any_marked(marks: Seq<bool>) -> bool {
    exists|i: int| 0 <= i < marks.len() && #[trigger] marks[i]
}

/// The first `cap` of the marks that are set.
fn keep_oldest(marks: &Vec<bool>, cap: usize) -> (r: Vec<bool>)
    ensures
        r@ == oldest(marks@, cap as nat),
{
    let mut r: Vec<bool> = Vec::new();
    let mut count: usize = 0;
    let mut i: usize = 0;
    while i < marks.len()
        invariant
            i <= marks@.len(),
            count <= i,
            count <= cap,
            count == if count_before(marks@, i as int) <= cap {
                count_before(marks@, i as int)
            } else {
                cap as nat
            },
            r@.len() == i,
            forall|k: int| 0 <= k < i ==> #[trigger] r@[k] == oldest(marks@, cap as nat)[k],
        decreases marks@.len() - i,
    {
        if marks[i] && count < cap {
            r.push(true);
            count = count + 1;
        } else {
            r.push(false);
        }
        i = i + 1;
    }
    assert(r@ =~= oldest(marks@, cap as nat));
    r
}

/// The first mark that is set.
pub open spec fn is_first_mark(marks: Seq<bool>, i: int) -> bool {
    &&& 0 <= i < marks.len()
    &&& marks[i]
    &&& forall|k: int| 0 <= k < i ==> !#[trigger] marks[k]
}

/// The position of the first mark that is set.
pub(crate) fn mark_first(marks: &Vec<bool>) -> (r: Option<usize>)
    ensures
        match r {
            Some(i) => is_first_mark(marks@, i as int),
            None => !any_marked(marks@),
        },
{
    let mut i: usize = 0;
    while i < marks.len()
        invariant
            i <= marks@.len(),
            forall|k: int| 0 <= k < i ==> !#[trigger] marks@[k],
        decreases marks@.len() - i,
    {
        if marks[i] {
            return Some(i);
        }
        i = i + 1;
    }
    None
}

/// The messages that are not marked, from message `i` on.
pub open spec fn kept_from(messages: Seq<MessageView>, marks: Seq<bool>, i: int) -> Seq<MessageView>
    decreases messages.len() - i,
{
    if i < 0 || i >= messages.len() {
        Seq::empty()
    } else if marks[i] {
        kept_from(messages, marks, i + 1)
    } else {
        seq![messages[i]] + kept_from(messages, marks, i + 1)
    }
}

/// The messages that are marked, up to message `i`.
pub open spec fn taken_to(messages: Seq<MessageView>, marks: Seq<bool>, i: int) -> Seq<MessageView>
    decreases i,
{
    if i <= 0 {
        Seq::empty()
    } else if marks[i - 1] {
        taken_to(messages, marks, i - 1).push(messages[i - 1])
    } else {
        taken_to(messages, marks, i - 1)
    }
}

/// The messages that are not marked.
pub open spec fn without(messages: Seq<MessageView>, marks: Seq<bool>) -> Seq<MessageView> {
    kept_from(messages, marks, 0)
}

/// The messages that are marked.
pub open spec fn only(messages: Seq<MessageView>, marks: Seq<bool>) -> Seq<MessageView> {
    taken_to(messages, marks, messages.len() as int)
}

/// Removes the marked messages.
pub fn remove_marked(messages: &mut Vec<UnifiedMessage>, marks: &Vec<bool>)
    requires
        marks@.len() == old(messages)@.len(),
    ensures
        message_views(final(messages)@) == without(message_views(old(messages)@), marks@),
{
    let ghost all = message_views(messages@);
    let mut i: usize = messages.len();
    assert(message_views(messages@) =~= all.take(i as int) + kept_from(all, marks@, i as int));
    while i > 0
        invariant
            i <= all.len(),
            marks@.len() == all.len(),
            message_views(messages@) == all.take(i as int) + kept_from(all, marks@, i as int),
        decreases i,
    {
        let ghost before = message_views(messages@);
        let ghost rest = kept_from(all, marks@, i as int);
        assert(before.len() == messages@.len());
        i = i - 1;
        if marks[i] {
            messages.remove(i);
            assert(message_views(messages@) =~= before.remove(i as int));
            assert(before.remove(i as int) =~= all.take(i as int) + rest);
        } else {
            assert(before =~= all.take(i as int) + (seq![all[i as int]] + rest));
        }
    }
    assert(message_views(messages@) =~= without(all, marks@));
}

/// Copies of the marked messages.
pub fn copy_marked(messages: &Vec<UnifiedMessage>, marks: &Vec<bool>) -> (r: Vec<UnifiedMessage>)
    requires
        marks@.len() == messages@.len(),
    ensures
        message_views(r@) == only(message_views(messages@), marks@),
{
    let ghost all = message_views(messages@);
    let mut r: Vec<UnifiedMessage> = Vec::new();
    let mut i: usize = 0;
    assert(message_views(r@) =~= taken_to(all, marks@, 0));
    while i < messages.len()
        invariant
            i <= messages@.len(),
            all == message_views(messages@),
            marks@.len() == messages@.len(),
            message_views(r@) == taken_to(all, marks@, i as int),
        decreases messages@.len() - i,
    {
        if marks[i] {
            let ghost before = message_views(r@);
            r.push(messages[i].clone());
            assert(message_views(r@) =~= before.push(all[i as int]));
        }
        i = i + 1;
    }
    r
}

/// A pin as a number of the model.
pub open spec fn pin_at(pin: Option<usize>) -> Option<int> {
    match pin {
        Some(p) => Some(p as int),
        None => None,
    }
}

/// The most recent user message, or the one that the pin points at.
pub open spec fn is_held(messages: Seq<MessageView>, pin: Option<int>, i: int) -> bool {
    last_of(messages, MessageRole::User, i) || pin == Some(i)
}

/// Any message but a system message, the most recent user message and the pinned one.
pub open spec fn is_removable(messages: Seq<MessageView>, pin: Option<int>, i: int) -> bool {
    messages[i].role != MessageRole::System && !is_held(messages, pin, i)
}

/// The oldest turns that may go.
pub open spec fn removable_turns(messages: Seq<MessageView>, pin: Option<int>, cap: nat) -> Seq<
    bool,
> {
    oldest(Seq::new(messages.len(), |i: int| is_removable(messages, pin, i)), cap)
}

/// The oldest turns that may go.
pub(crate) fn mark_removable(messages: &Vec<UnifiedMessage>, pin: Option<usize>, cap: usize) -> (r:
    Vec<bool>)
    ensures
        r@ == removable_turns(message_views(messages@), pin_at(pin), cap as nat),
{
    let ghost all = message_views(messages@);
    let recent = last_with(messages, MessageRole::User);
    let mut marks: Vec<bool> = Vec::new();
    let mut i: usize = 0;
    while i < messages.len()
        invariant
            i <= messages@.len(),
            all == message_views(messages@),
            match recent {
                Some(k) => last_of(all, MessageRole::User, k as int),
                None => forall|k: int|
                    0 <= k < messages@.len() ==> (#[trigger] messages@[k]).role
                        != MessageRole::User,
            },
            marks@.len() == i,
            forall|k: int|
                0 <= k < i ==> #[trigger] marks@[k] == is_removable(all, pin_at(pin), k),
        decreases messages@.len() - i,
    {
        proof {
            if let Some(k) = recent {
                lemma_last_unique(all, MessageRole::User, k as int, i as int);
            }
        }
        assert(all[i as int].role == messages@[i as int].role);
        marks.push(
            messages[i].role != MessageRole::System && !is_at(recent, i) && !is_at(pin, i),
        );
        i = i + 1;
    }
    assert(marks@ =~= Seq::new(all.len(), |i: int| is_removable(all, pin_at(pin), i)));
    keep_oldest(&marks, cap)
}

/// There is one last message with a role.
pub(crate) proof fn lemma_last_unique(messages: Seq<MessageView>, role: MessageRole, i: int, k: int)
    requires
        last_of(messages, role, i),
    ensures
        last_of(messages, role, k) <==> k == i,
{
    if last_of(messages, role, k) && k != i {
        if k < i {
            assert(messages[i].role != role);
        } else {
            assert(messages[k].role != role);
        }
    }
}

/// There is one first message with a role.
proof fn lemma_first_unique(messages: Seq<MessageView>, role: MessageRole, i: int, k: int)
    requires
        first_of(messages, role, i),
    ensures
        first_of(messages, role, k) <==> k == i,
{
    if first_of(messages, role, k) && k != i {
        if k < i {
            assert(messages[k].role != role);
        } else {
            assert(messages[i].role != role);
        }
    }
}

/// Any message but the first system message, the most recent user message and the pinned one.
pub open spec fn is_unprotected(messages: Seq<MessageView>, pin: Option<int>, i: int) -> bool {
    !first_of(messages, MessageRole::System, i) && !is_held(messages, pin, i)
}

/// The messages that never go.
pub open spec fn protected(messages: Seq<MessageView>, pin: Option<int>) -> Seq<bool> {
    Seq::new(messages.len(), |i: int| !is_unprotected(messages, pin, i))
}

/// The oldest messages that go to leave `keep`.
pub open spec fn window_drop(messages: Seq<MessageView>, pin: Option<int>, keep: nat) -> Seq<bool> {
    oldest(
        Seq::new(messages.len(), |i: int| is_unprotected(messages, pin, i)),
        (messages.len() - keep) as nat,
    )
}

/// The messages that never go.
pub(crate) fn mark_protected(messages: &Vec<UnifiedMessage>, pin: Option<usize>) -> (r: Vec<bool>)
    ensures
        r@ == protected(message_views(messages@), pin_at(pin)),
{
    let ghost all = message_views(messages@);
    let first = first_with(messages, MessageRole::System);
    let recent = last_with(messages, MessageRole::User);
    let mut marks: Vec<bool> = Vec::new();
    let mut i: usize = 0;
    while i < messages.len()
        invariant
            i <= messages@.len(),
            all == message_views(messages@),
            match first {
                Some(k) => first_of(all, MessageRole::System, k as int),
                None => forall|k: int|
                    0 <= k < messages@.len() ==> (#[trigger] messages@[k]).role
                        != MessageRole::System,
            },
            match recent {
                Some(k) => last_of(all, MessageRole::User, k as int),
                None => forall|k: int|
                    0 <= k < messages@.len() ==> (#[trigger] messages@[k]).role
                        != MessageRole::User,
            },
            marks@.len() == i,
            forall|k: int|
                0 <= k < i ==> #[trigger] marks@[k] == !is_unprotected(all, pin_at(pin), k),
        decreases messages@.len() - i,
    {
        proof {
            if let Some(k) = first {
                lemma_first_unique(all, MessageRole::System, k as int, i as int);
            }
            if let Some(k) = recent {
                lemma_last_unique(all, MessageRole::User, k as int, i as int);
            }
        }
        assert(all[i as int].role == messages@[i as int].role);
        marks.push(is_at(first, i) || is_at(recent, i) || is_at(pin, i));
        i = i + 1;
    }
    assert(marks@ =~= protected(all, pin_at(pin)));
    marks
}

/// The oldest messages that go to leave `keep`.
pub(crate) fn mark_window(messages: &Vec<UnifiedMessage>, pin: Option<usize>, keep: usize) -> (r:
    Vec<bool>)
    requires
        keep <= messages@.len(),
    ensures
        r@ == window_drop(message_views(messages@), pin_at(pin), keep as nat),
{
    let ghost all = message_views(messages@);
    let stay = mark_protected(messages, pin);
    let mut marks: Vec<bool> = Vec::new();
    let mut i: usize = 0;
    while i < messages.len()
        invariant
            i <= messages@.len(),
            all == message_views(messages@),
            stay@ == protected(all, pin_at(pin)),
            marks@.len() == i,
            forall|k: int|
                0 <= k < i ==> #[trigger] marks@[k] == is_unprotected(all, pin_at(pin), k),
        decreases messages@.len() - i,
    {
        marks.push(!stay[i]);
        i = i + 1;
    }
    assert(marks@ =~= Seq::new(all.len(), |i: int| is_unprotected(all, pin_at(pin), i)));
    keep_oldest(&marks, messages.len() - keep)
}

/// A system message after the first.
pub open spec fn is_observation(messages: Seq<MessageView>, i: int) -> bool {
    messages[i].role == MessageRole::System && !first_of(messages, MessageRole::System, i)
}

/// The oldest system messages after the first.
pub open spec fn observations_drop(messages: Seq<MessageView>, cap: nat) -> Seq<bool> {
    oldest(Seq::new(messages.len(), |i: int| is_observation(messages, i)), cap)
}

/// The oldest system messages after the first.
pub(crate) fn mark_observations(messages: &Vec<UnifiedMessage>, cap: usize) -> (r: Vec<bool>)
    ensures
        r@ == observations_drop(message_views(messages@), cap as nat),
{
    let ghost all = message_views(messages@);
    let first = first_with(messages, MessageRole::System);
    let mut marks: Vec<bool> = Vec::new();
    let mut i: usize = 0;
    while i < messages.len()
        invariant
            i <= messages@.len(),
            all == message_views(messages@),
            match first {
                Some(k) => first_of(all, MessageRole::System, k as int),
                None => forall|k: int|
                    0 <= k < messages@.len() ==> (#[trigger] messages@[k]).role
                        != MessageRole::System,
            },
            marks@.len() == i,
            forall|k: int| 0 <= k < i ==> #[trigger] marks@[k] == is_observation(all, k),
        decreases messages@.len() - i,
    {
        proof {
            if let Some(k) = first {
                lemma_first_unique(all, MessageRole::System, k as int, i as int);
            }
        }
        assert(all[i as int].role == messages@[i as int].role);
        marks.push(messages[i].role == MessageRole::System && !is_at(first, i));
        i = i + 1;
    }
    assert(marks@ =~= Seq::new(all.len(), |i: int| is_observation(all, i)));
    keep_oldest(&marks, cap)
}

/// A block is the tool call with the id.
pub open spec fn calls_tool(b: BlockView, id: Seq<char>) -> bool {
    b matches BlockView::ToolCall { id: call_id, .. } && call_id == id
}

/// A message holds the tool call with the id.
pub open spec fn message_calls(m: MessageView, id: Seq<char>) -> bool {
    exists|b: int| 0 <= b < m.content.len() && #[trigger] calls_tool(m.content[b], id)
}

/// A marked message holds the tool call with the id.
pub open spec fn dropped_call(messages: Seq<MessageView>, marks: Seq<bool>, id: Seq<char>) -> bool {
    exists|j: int| 0 <= j < messages.len() && marks[j] && #[trigger] message_calls(messages[j], id)
}

/// A block is the result of the call with the id.
pub open spec fn returns_result(b: BlockView, id: Seq<char>) -> bool {
    b matches BlockView::ToolResult { tool_call_id, .. } && tool_call_id == id
}

/// A message holds the result of the call with the id.
pub open spec fn answers(m: MessageView, id: Seq<char>) -> bool {
    ||| m.role == MessageRole::Tool && m.tool_call_id == Some(id)
    ||| exists|b: int| 0 <= b < m.content.len() && #[trigger] returns_result(m.content[b], id)
}

/// A message holds the result of a call that goes.
pub open spec fn answers_dropped(messages: Seq<MessageView>, marks: Seq<bool>, i: int) -> bool {
    exists|id: Seq<char>| #[trigger] dropped_call(messages, marks, id) && answers(messages[i], id)
}

/// Every message that holds the result of a call that goes, goes too, unless it is spared.
pub open spec fn is_closed(messages: Seq<MessageView>, marks: Seq<bool>, spared: Seq<bool>) -> bool {
    forall|i: int|
        0 <= i < messages.len() && !spared[i] && #[trigger] answers_dropped(messages, marks, i)
            ==> marks[i]
}

/// Marks that hold the given ones and are closed.
pub open spec fn is_closure(
    messages: Seq<MessageView>,
    marks: Seq<bool>,
    spared: Seq<bool>,
    c: Seq<bool>,
) -> bool {
    &&& c.len() == messages.len()
    &&& forall|i: int| 0 <= i < messages.len() && #[trigger] marks[i] ==> c[i]
    &&& is_closed(messages, c, spared)
}

/// The marked messages, and with each call that goes the messages that hold its result, and so
/// on for the calls in those: the least marks that are closed. The spared messages are not
/// added.
pub open spec fn paired(messages: Seq<MessageView>, marks: Seq<bool>, spared: Seq<bool>) -> Seq<
    bool,
> {
    Seq::new(
        messages.len(),
        |i: int| forall|c: Seq<bool>| #[trigger] is_closure(messages, marks, spared, c) ==> c[i],
    )
}

/// The most recent user message.
pub open spec fn recent_user(messages: Seq<MessageView>) -> Seq<bool> {
    Seq::new(messages.len(), |i: int| last_of(messages, MessageRole::User, i))
}

/// With more messages that go, more hold the result of a call that goes.
proof fn lemma_answers_grow(messages: Seq<MessageView>, a: Seq<bool>, b: Seq<bool>, i: int)
    requires
        forall|k: int| 0 <= k < messages.len() && #[trigger] a[k] ==> b[k],
        answers_dropped(messages, a, i),
    ensures
        answers_dropped(messages, b, i),
{
    let id = choose|id: Seq<char>| #[trigger]
        dropped_call(messages, a, id) && answers(messages[i], id);
    let j = choose|j: int|
        0 <= j < messages.len() && a[j] && #[trigger] message_calls(messages[j], id);
    assert(b[j] && message_calls(messages[j], id));
    assert(dropped_call(messages, b, id));
}

/// What closing marks gives: closed marks that hold the given ones, to which only messages are
/// added that are not spared and hold the result of a call that goes.
pub proof fn lemma_paired(messages: Seq<MessageView>, marks: Seq<bool>, spared: Seq<bool>)
    ensures
        is_closure(messages, marks, spared, paired(messages, marks, spared)),
        forall|i: int|
            0 <= i < messages.len() && #[trigger] paired(messages, marks, spared)[i] && !marks[i]
                ==> !spared[i] && answers_dropped(messages, paired(messages, marks, spared), i),
{
    let p = paired(messages, marks, spared);
    assert forall|i: int| 0 <= i < messages.len() && !spared[i] && #[trigger] answers_dropped(
        messages,
        p,
        i,
    ) implies p[i] by {
        assert forall|c: Seq<bool>| #[trigger] is_closure(messages, marks, spared, c) implies c[i] by {
            lemma_answers_grow(messages, p, c, i);
        }
    }
    assert(is_closure(messages, marks, spared, p));
    assert forall|i: int| 0 <= i < messages.len() && #[trigger] p[i] && !marks[i] implies !spared[i]
        && answers_dropped(messages, p, i) by {
        if spared[i] || !answers_dropped(messages, p, i) {
            let c = p.update(i, false);
            assert forall|j: int| 0 <= j < messages.len() && !spared[j]
                && #[trigger] answers_dropped(messages, c, j) implies c[j] by {
                lemma_answers_grow(messages, c, p, j);
            }
            assert(is_closure(messages, marks, spared, c));
            assert(c[i]);
        }
    }
}

/// Whether a message holds the tool call with the id.
fn has_call(message: &UnifiedMessage, id: &str) -> (r: bool)
    ensures
        r == message_calls(message@, id@),
{
    let ghost all = message@.content;
    let mut b: usize = 0;
    while b < message.content.len()
        invariant
            all == block_views(message.content@),
            b <= all.len(),
            forall|k: int| 0 <= k < b ==> !#[trigger] calls_tool(all[k], id@),
        decreases message.content@.len() - b,
    {
        assert(all[b as int] == message.content@[b as int]@);
        if let MessageContentBlock::ToolCall { id: call_id, .. } = &message.content[b] {
            if str_eq(call_id.as_str(), id) {
                assert(calls_tool(message@.content[b as int], id@));
                return true;
            }
        }
        b = b + 1;
    }
    false
}

/// Whether a marked message holds the tool call with the id.
fn is_call_dropped(messages: &Vec<UnifiedMessage>, marks: &Vec<bool>, id: &str) -> (r: bool)
    requires
        marks@.len() == messages@.len(),
    ensures
        r == dropped_call(message_views(messages@), marks@, id@),
{
    let ghost all = message_views(messages@);
    let mut j: usize = 0;
    while j < messages.len()
        invariant
            all == message_views(messages@),
            marks@.len() == messages@.len(),
            j <= messages@.len(),
            forall|k: int| 0 <= k < j && marks@[k] ==> !#[trigger] message_calls(all[k], id@),
        decreases messages@.len() - j,
    {
        if marks[j] && has_call(&messages[j], id) {
            assert(message_calls(all[j as int], id@));
            return true;
        }
        j = j + 1;
    }
    false
}

/// Whether a message holds the result of a call that goes.
fn is_answer_dropped(messages: &Vec<UnifiedMessage>, marks: &Vec<bool>, i: usize) -> (r: bool)
    requires
        marks@.len() == messages@.len(),
        i < messages@.len(),
    ensures
        r == answers_dropped(message_views(messages@), marks@, i as int),
{
    let ghost all = message_views(messages@);
    let message = &messages[i];
    let ghost m = all[i as int];
    assert(m == message@);
    if message.role == MessageRole::Tool {
        if let Some(id) = &message.tool_call_id {
            if is_call_dropped(messages, marks, id.as_str()) {
                assert(dropped_call(all, marks@, id@) && answers(m, id@));
                return true;
            }
        }
    }
    let mut b: usize = 0;
    while b < message.content.len()
        invariant
            all == message_views(messages@),
            marks@.len() == messages@.len(),
            m == message@,
            b <= m.content.len(),
            m.content == block_views(message.content@),
            i < all.len(),
            m == all[i as int],
            forall|k: int, id: Seq<char>|
                0 <= k < b && #[trigger] returns_result(m.content[k], id) ==> !dropped_call(
                    all,
                    marks@,
                    id,
                ),
        decreases message.content@.len() - b,
    {
        assert(m.content[b as int] == message.content@[b as int]@);
        if let MessageContentBlock::ToolResult { tool_call_id, .. } = &message.content[b] {
            if is_call_dropped(messages, marks, tool_call_id.as_str()) {
                assert(returns_result(m.content[b as int], tool_call_id@));
                assert(dropped_call(all, marks@, tool_call_id@) && answers(m, tool_call_id@));
                return true;
            }
        }
        b = b + 1;
    }
    proof {
        if answers_dropped(all, marks@, i as int) {
            let id = choose|id: Seq<char>| #[trigger]
                dropped_call(all, marks@, id) && answers(m, id);
            if m.role == MessageRole::Tool && m.tool_call_id == Some(id) {
                assert(message.tool_call_id is Some);
                assert(message.tool_call_id->0@ == id);
                assert(false);
            }
            let k = choose|k: int| 0 <= k < m.content.len() && #[trigger] returns_result(
                m.content[k],
                id,
            );
            assert(returns_result(m.content[k], id));
            assert(false);
        }
    }
    false
}

/// One mark more counts.
proof fn lemma_count_update(marks: Seq<bool>, i: int, n: int)
    requires
        0 <= i < marks.len(),
        !marks[i],
        0 <= n <= marks.len(),
    ensures
        count_before(marks.update(i, true), n) == count_before(marks, n) + if i < n {
            1nat
        } else {
            0nat
        },
    decreases n,
{
    if n > 0 {
        lemma_count_update(marks, i, n - 1);
    }
}

/// No more marks are set than there are.
proof fn lemma_count_bound(marks: Seq<bool>, n: int)
    requires
        0 <= n,
    ensures
        count_before(marks, n) <= n,
    decreases n,
{
    if n > 0 {
        lemma_count_bound(marks, n - 1);
    }
}

/// The marked messages, and with each call that goes the messages that hold its result, and so
/// on for the calls in those. The spared messages are not added.
pub(crate) fn close_sparing(
    messages: &Vec<UnifiedMessage>,
    marks: &Vec<bool>,
    spared: &Vec<bool>,
) -> (r: Vec<bool>)
    requires
        marks@.len() == messages@.len(),
        spared@.len() == messages@.len(),
    ensures
        r@ == paired(message_views(messages@), marks@, spared@),
{
    let ghost all = message_views(messages@);
    let n: usize = messages.len();
    let mut r: Vec<bool> = Vec::new();
    let mut i: usize = 0;
    while i < n
        invariant
            i <= n == marks@.len(),
            r@ == marks@.take(i as int),
        decreases n - i,
    {
        r.push(marks[i]);
        assert(r@ =~= marks@.take(i + 1));
        i = i + 1;
    }
    assert(r@ =~= marks@);
    let mut changed = true;
    while changed
        invariant
            all == message_views(messages@),
            n == messages@.len(),
            n == all.len(),
            spared@.len() == n,
            r@.len() == n,
            forall|k: int| 0 <= k < n && #[trigger] marks@[k] ==> r@[k],
            forall|c: Seq<bool>| #[trigger]
                is_closure(all, marks@, spared@, c) ==> forall|k: int|
                    0 <= k < n && #[trigger] r@[k] ==> c[k],
            !changed ==> is_closed(all, r@, spared@),
        decreases n - count_before(r@, n as int), (if changed {
            1int
        } else {
            0int
        }),
    {
        changed = false;
        let ghost start = r@;
        let mut i: usize = 0;
        while i < n
            invariant
                all == message_views(messages@),
                n == messages@.len(),
                n == all.len(),
                spared@.len() == n,
                r@.len() == n,
                start.len() == n,
                i <= n,
                forall|k: int| 0 <= k < n && #[trigger] marks@[k] ==> r@[k],
                forall|c: Seq<bool>| #[trigger]
                    is_closure(all, marks@, spared@, c) ==> forall|k: int|
                        0 <= k < n && #[trigger] r@[k] ==> c[k],
                !changed ==> r@ == start && forall|k: int|
                    0 <= k < i && !spared@[k] && #[trigger] answers_dropped(all, start, k)
                        ==> start[k],
                count_before(r@, n as int) >= count_before(start, n as int),
                changed ==> count_before(r@, n as int) > count_before(start, n as int),
            decreases n - i,
        {
            if !r[i] && !spared[i] && is_answer_dropped(messages, &r, i) {
                let ghost before = r@;
                proof {
                    lemma_count_update(before, i as int, n as int);
                    assert forall|c: Seq<bool>| #[trigger]
                        is_closure(all, marks@, spared@, c) implies forall|k: int|
                        0 <= k < n && #[trigger] before.update(i as int, true)[k] ==> c[k] by {
                        assert forall|k: int| 0 <= k < n && #[trigger] before[k] implies c[k] by {}
                        lemma_answers_grow(all, before, c, i as int);
                    }
                }
                r.set(i, true);
                changed = true;
            }
            i = i + 1;
        }
        proof {
            lemma_count_bound(r@, n as int);
            if !changed {
                assert(is_closed(all, r@, spared@));
            }
        }
    }
    proof {
        assert(is_closure(all, marks@, spared@, r@));
        let p = paired(all, marks@, spared@);
        assert forall|k: int| 0 <= k < n implies r@[k] == p[k] by {
            if r@[k] {
                assert forall|c: Seq<bool>| #[trigger]
                    is_closure(all, marks@, spared@, c) implies c[k] by {}
            }
        }
        assert(r@ =~= p);
    }
    r
}

/// The marked messages, and with each call that goes the messages that hold its result, and so
/// on for the calls in those. The most recent user message is not added.
pub fn pairing_close(messages: &Vec<UnifiedMessage>, marks: &Vec<bool>) -> (r: Vec<bool>)
    requires
        marks@.len() == messages@.len(),
    ensures
        r@ == paired(
            message_views(messages@),
            marks@,
            recent_user(message_views(messages@)),
        ),
{
    let ghost all = message_views(messages@);
    let recent = last_with(messages, MessageRole::User);
    let mut spared: Vec<bool> = Vec::new();
    let mut i: usize = 0;
    while i < messages.len()
        invariant
            i <= messages@.len(),
            all == message_views(messages@),
            match recent {
                Some(k) => last_of(all, MessageRole::User, k as int),
                None => forall|k: int|
                    0 <= k < messages@.len() ==> (#[trigger] messages@[k]).role
                        != MessageRole::User,
            },
            spared@.len() == i,
            forall|k: int| 0 <= k < i ==> #[trigger] spared@[k] == recent_user(all)[k],
        decreases messages@.len() - i,
    {
        proof {
            if let Some(k) = recent {
                lemma_last_unique(all, MessageRole::User, k as int, i as int);
            }
        }
        assert(all[i as int].role == messages@[i as int].role);
        spared.push(is_at(recent, i));
        i = i + 1;
    }
    assert(spared@ =~= recent_user(all));
    close_sparing(messages, marks, &spared)
}

/// Where a message that stays stands afterwards.
pub open spec fn moved(marks: Seq<bool>, i: int) -> int {
    i - count_before(marks, i)
}

/// Where a message that stays stands afterwards.
pub(crate) fn moved_to(marks: &Vec<bool>, i: usize) -> (r: usize)
    requires
        i <= marks@.len(),
    ensures
        r == moved(marks@, i as int),
{
    let mut count: usize = 0;
    let mut k: usize = 0;
    while k < i
        invariant
            k <= i <= marks@.len(),
            count <= k,
            count == count_before(marks@, k as int),
        decreases i - k,
    {
        if marks[k] {
            count = count + 1;
        }
        k = k + 1;
    }
    i - count
}

/// A message that is not marked stands afterwards where it moved to, and what stands before it
/// stood before it.
pub proof fn lemma_moved(messages: Seq<MessageView>, marks: Seq<bool>, start: int, i: int)
    requires
        marks.len() == messages.len(),
        0 <= start <= i < messages.len(),
        !marks[i],
    ensures
        ({
            let kept = kept_from(messages, marks, start);
            let at = moved(marks, i) - moved(marks, start);
            &&& 0 <= at < kept.len()
            &&& kept[at] == messages[i]
            &&& forall|k: int|
                0 <= k < at ==> exists|j: int|
                    start <= j < i && !marks[j] && #[trigger] messages[j] == #[trigger] kept[k]
        }),
    decreases i - start,
{
    let kept = kept_from(messages, marks, start);
    let rest = kept_from(messages, marks, start + 1);
    let at = moved(marks, i) - moved(marks, start);
    assert(count_before(marks, start + 1) == count_before(marks, start) + if marks[start] {
        1nat
    } else {
        0nat
    });
    if start < i {
        lemma_moved(messages, marks, start + 1, i);
        let below = moved(marks, i) - moved(marks, start + 1);
        assert forall|k: int| 0 <= k < at implies exists|j: int|
            start <= j < i && !marks[j] && #[trigger] messages[j] == #[trigger] kept[k] by {
            if marks[start] {
                assert(kept[k] == rest[k]);
                let j = choose|j: int|
                    start + 1 <= j < i && !marks[j] && #[trigger] messages[j] == rest[k];
                assert(messages[j] == kept[k]);
            } else if k == 0 {
                assert(messages[start] == kept[0]);
            } else {
                assert(kept[k] == rest[k - 1]);
                let j = choose|j: int|
                    start + 1 <= j < i && !marks[j] && #[trigger] messages[j] == rest[k - 1];
                assert(messages[j] == kept[k]);
            }
        }
    }
}

/// Where the output of a tool call stands: in a message, and there in a block, or, without a
/// block, in all text blocks of a tool's message.
pub open spec fn in_bounds(messages: Seq<MessageView>, at: (int, Option<int>)) -> bool {
    &&& 0 <= at.0 < messages.len()
    &&& at.1 matches Some(b) ==> 0 <= b < messages[at.0].content.len()
}

/// A block with its text emptied.
pub open spec fn blank_text(b: BlockView) -> BlockView {
    match b {
        BlockView::Text(_) => BlockView::Text(Seq::empty()),
        _ => b,
    }
}

/// A block with its output emptied.
pub open spec fn blank_output(b: BlockView) -> BlockView {
    match b {
        BlockView::ToolResult { tool_call_id, .. } => BlockView::ToolResult {
            tool_call_id,
            output: Seq::empty(),
        },
        _ => b,
    }
}

/// A message with the output that stands there emptied.
pub open spec fn blank_message(m: MessageView, block: Option<int>) -> MessageView {
    match block {
        Some(b) => MessageView { content: m.content.update(b, blank_output(m.content[b])), ..m },
        None => MessageView {
            content: Seq::new(m.content.len(), |b: int| blank_text(m.content[b])),
            ..m
        },
    }
}

/// Messages with the output that stands there emptied.
pub open spec fn blank_at(messages: Seq<MessageView>, at: (int, Option<int>)) -> Seq<MessageView> {
    messages.update(at.0, blank_message(messages[at.0], at.1))
}

/// A message has a text block.
pub open spec fn has_text(m: MessageView) -> bool {
    exists|b: int| 0 <= b < m.content.len() && #[trigger] m.content[b] is Text
}

/// There is an output there.
pub open spec fn holds_output(messages: Seq<MessageView>, at: (int, Option<int>)) -> bool {
    match at.1 {
        Some(b) => messages[at.0].content[b] is ToolResult,
        None => has_text(messages[at.0]),
    }
}

/// The place as numbers of the model.
pub open spec fn place(at: (usize, Option<usize>)) -> (int, Option<int>) {
    (
        at.0 as int,
        match at.1 {
            Some(b) => Some(b as int),
            None => None,
        },
    )
}

/// The places, in order.
pub open spec fn places(v: Seq<(usize, Option<usize>)>) -> Seq<(int, Option<int>)> {
    Seq::new(v.len(), |i: int| place(v[i]))
}

/// Empties all text blocks; says whether there was one.
fn blank_texts(content: &mut Vec<MessageContentBlock>) -> (r: bool)
    ensures
        block_views(final(content)@) == Seq::new(
            old(content)@.len(),
            |b: int| blank_text(block_views(old(content)@)[b]),
        ),
        r == exists|b: int|
            0 <= b < old(content)@.len() && #[trigger] block_views(old(content)@)[b] is Text,
{
    let ghost all = block_views(content@);
    let mut blanked = false;
    let mut b: usize = 0;
    while b < content.len()
        invariant
            content@.len() == all.len(),
            b <= all.len(),
            forall|k: int| 0 <= k < b ==> (#[trigger] content@[k])@ == blank_text(all[k]),
            forall|k: int| b <= k < all.len() ==> (#[trigger] content@[k])@ == all[k],
            blanked == exists|k: int| 0 <= k < b && #[trigger] all[k] is Text,
        decreases all.len() - b,
    {
        let ghost before = content@;
        assert(before[b as int]@ == all[b as int]);
        let is_text = match &content[b] {
            MessageContentBlock::Text(_) => true,
            _ => false,
        };
        if is_text {
            let empty = MessageContentBlock::Text(String::new());
            assert(empty@ == BlockView::Text(Seq::empty()));
            content.set(b, empty);
            blanked = true;
            assert(all[b as int] is Text);
        } else {
            assert(!(all[b as int] is Text));
        }
        b = b + 1;
    }
    assert(block_views(content@) =~= Seq::new(all.len(), |b: int| blank_text(all[b])));
    blanked
}

/// Empties the output of a block; says whether it is one with an output.
fn blank_block(content: &mut Vec<MessageContentBlock>, b: usize) -> (r: bool)
    requires
        b < old(content)@.len(),
    ensures
        block_views(final(content)@) == block_views(old(content)@).update(
            b as int,
            blank_output(block_views(old(content)@)[b as int]),
        ),
        r == (block_views(old(content)@)[b as int] is ToolResult),
{
    let ghost all = block_views(content@);
    assert(all[b as int] == content@[b as int]@);
    let id: Option<String> = match &content[b] {
        MessageContentBlock::ToolResult { tool_call_id, .. } => Some(tool_call_id.clone()),
        _ => None,
    };
    match id {
        Some(tool_call_id) => {
            let empty = MessageContentBlock::ToolResult { tool_call_id, output: String::new() };
            assert(empty@ == blank_output(all[b as int]));
            content.set(b, empty);
            assert(block_views(content@) =~= all.update(b as int, blank_output(all[b as int])));
            true
        },
        None => {
            assert(block_views(content@) =~= all.update(b as int, blank_output(all[b as int])));
            false
        },
    }
}

/// Empties the output that stands there; says whether there is one.
fn blank_result(messages: &mut Vec<UnifiedMessage>, at: (usize, Option<usize>)) -> (r: bool)
    requires
        in_bounds(message_views(old(messages)@), place(at)),
    ensures
        message_views(final(messages)@) == blank_at(message_views(old(messages)@), place(at)),
        r == holds_output(message_views(old(messages)@), place(at)),
{
    let ghost all = message_views(messages@);
    let (i, block) = at;
    assert(all[i as int] == messages@[i as int]@);
    let mut content: Vec<MessageContentBlock> = Vec::new();
    std::mem::swap(&mut content, &mut messages[i].content);
    assert(block_views(content@) == all[i as int].content);
    let blanked = match block {
        Some(b) => blank_block(&mut content, b),
        None => blank_texts(&mut content),
    };
    messages[i].content = content;
    assert(messages@[i as int]@ =~= blank_message(all[i as int], place(at).1));
    assert(message_views(messages@) =~= blank_at(all, place(at)));
    blanked
}

/// The places of the tool results among blocks.
pub open spec fn block_places(content: Seq<BlockView>, i: int) -> Seq<(int, Option<int>)>
    decreases content.len(),
{
    if content.len() == 0 {
        Seq::empty()
    } else {
        let before = block_places(content.drop_last(), i);
        if content.last() is ToolResult {
            before.push((i, Some(content.len() - 1)))
        } else {
            before
        }
    }
}

/// The places of the outputs in a message: the message of a tool, and each tool result.
pub open spec fn message_places(m: MessageView, i: int) -> Seq<(int, Option<int>)> {
    (if m.role == MessageRole::Tool && m.tool_call_id is Some {
        seq![(i, None)]
    } else {
        Seq::empty()
    }) + block_places(m.content, i)
}

/// The places of the outputs of messages.
pub open spec fn result_places(messages: Seq<MessageView>) -> Seq<(int, Option<int>)>
    decreases messages.len(),
{
    if messages.len() == 0 {
        Seq::empty()
    } else {
        result_places(messages.drop_last()) + message_places(
            messages.last(),
            messages.len() - 1,
        )
    }
}

/// Every place of an output is in bounds.
proof fn lemma_block_places(content: Seq<BlockView>, i: int)
    ensures
        forall|k: int|
            0 <= k < block_places(content, i).len() ==> {
                let at = #[trigger] block_places(content, i)[k];
                at.0 == i && (at.1 matches Some(b) && 0 <= b < content.len())
            },
    decreases content.len(),
{
    if content.len() > 0 {
        lemma_block_places(content.drop_last(), i);
    }
}

/// Every place of an output is in bounds.
pub(crate) proof fn lemma_result_places(messages: Seq<MessageView>)
    ensures
        forall|k: int|
            0 <= k < result_places(messages).len() ==> in_bounds(
                messages,
                #[trigger] result_places(messages)[k],
            ),
    decreases messages.len(),
{
    if messages.len() > 0 {
        let n = messages.len() - 1;
        let before = result_places(messages.drop_last());
        lemma_result_places(messages.drop_last());
        lemma_block_places(messages.last().content, n);
        assert forall|k: int| 0 <= k < result_places(messages).len() implies in_bounds(
            messages,
            #[trigger] result_places(messages)[k],
        ) by {
            if k < before.len() {
                assert(result_places(messages)[k] == before[k]);
                assert(in_bounds(messages.drop_last(), before[k]));
                assert(messages.drop_last()[before[k].0] == messages[before[k].0]);
            } else {
                let j = k - before.len();
                let blocks = block_places(messages.last().content, n);
                assert(result_places(messages)[k] == message_places(messages.last(), n)[j]);
                if messages.last().role == MessageRole::Tool && messages.last().tool_call_id is Some {
                    if j > 0 {
                        assert(message_places(messages.last(), n)[j] == blocks[j - 1]);
                    }
                } else {
                    assert(message_places(messages.last(), n)[j] == blocks[j]);
                }
            }
        }
    }
}

/// The places of the outputs of messages.
fn collect_places(messages: &Vec<UnifiedMessage>) -> (r: Vec<(usize, Option<usize>)>)
    ensures
        places(r@) == result_places(message_views(messages@)),
{
    let ghost all = message_views(messages@);
    let mut r: Vec<(usize, Option<usize>)> = Vec::new();
    let mut i: usize = 0;
    assert(all.take(0) =~= Seq::<MessageView>::empty());
    assert(places(r@) =~= result_places(all.take(0)));
    while i < messages.len()
        invariant
            i <= messages@.len(),
            all == message_views(messages@),
            places(r@) == result_places(all.take(i as int)),
        decreases messages@.len() - i,
    {
        let message = &messages[i];
        let ghost start = places(r@);
        let ghost m = all[i as int];
        assert(m == message@);
        if message.role == MessageRole::Tool && message.tool_call_id.is_some() {
            r.push((i, None));
            assert(places(r@) =~= start + seq![(i as int, None::<int>)]);
        } else {
            assert(places(r@) =~= start + Seq::<(int, Option<int>)>::empty());
        }
        let ghost head = places(r@);
        let mut b: usize = 0;
        assert(m.content.take(0) =~= Seq::<BlockView>::empty());
        assert(places(r@) =~= head + block_places(m.content.take(0), i as int));
        while b < message.content.len()
            invariant
                m == message@,
                b <= message.content@.len(),
                places(r@) == head + block_places(m.content.take(b as int), i as int),
            decreases message.content@.len() - b,
        {
            let ghost before = places(r@);
            proof {
                assert(m.content.take(b + 1).drop_last() =~= m.content.take(b as int));
                assert(m.content.take(b + 1).last() == message.content@[b as int]@);
            }
            if let MessageContentBlock::ToolResult { .. } = &message.content[b] {
                r.push((i, Some(b)));
                assert(places(r@) =~= before.push((i as int, Some(b as int))));
                assert(places(r@) =~= head + block_places(m.content.take(b + 1), i as int));
            }
            b = b + 1;
        }
        assert(m.content.take(b as int) =~= m.content);
        proof {
            assert(all.take(i + 1).drop_last() =~= all.take(i as int));
            assert(places(r@) =~= start + message_places(m, i as int));
        }
        i = i + 1;
    }
    assert(all.take(i as int) =~= all);
    r
}

/// Messages with the outputs at places emptied in turn, and whether there was one.
pub open spec fn blank_all(messages: Seq<MessageView>, at: Seq<(int, Option<int>)>) -> (
    Seq<MessageView>,
    bool,
)
    decreases at.len(),
{
    if at.len() == 0 {
        (messages, false)
    } else {
        let before = blank_all(messages, at.drop_last());
        (
            blank_at(before.0, at.last()),
            before.1 || holds_output(before.0, at.last()),
        )
    }
}

/// Two lists of messages with blocks at the same places.
pub open spec fn same_shape(a: Seq<MessageView>, b: Seq<MessageView>) -> bool {
    &&& a.len() == b.len()
    &&& forall|i: int|
        0 <= i < a.len() ==> {
            let m = #[trigger] a[i];
            &&& m.role == b[i].role
            &&& m.name == b[i].name
            &&& m.tool_call_id == b[i].tool_call_id
            &&& m.content.len() == b[i].content.len()
        }
}

/// Emptying an output keeps the messages and their blocks in place.
pub(crate) proof fn lemma_blank_shape(messages: Seq<MessageView>, at: (int, Option<int>))
    requires
        in_bounds(messages, at),
    ensures
        same_shape(messages, blank_at(messages, at)),
{
}

/// Emptying outputs keeps the messages and their blocks in place.
pub(crate) proof fn lemma_blank_all_shape(messages: Seq<MessageView>, at: Seq<(int, Option<int>)>)
    requires
        forall|k: int| 0 <= k < at.len() ==> in_bounds(messages, #[trigger] at[k]),
    ensures
        same_shape(messages, blank_all(messages, at).0),
    decreases at.len(),
{
    if at.len() > 0 {
        assert forall|k: int| 0 <= k < at.drop_last().len() implies in_bounds(
            messages,
            #[trigger] at.drop_last()[k],
        ) by {
            assert(at.drop_last()[k] == at[k]);
        }
        lemma_blank_all_shape(messages, at.drop_last());
        let before = blank_all(messages, at.drop_last()).0;
        assert(at.last() == at[at.len() - 1]);
        assert(in_bounds(before, at.last()));
        lemma_blank_shape(before, at.last());
        let after = blank_all(messages, at).0;
        assert forall|i: int| 0 <= i < messages.len() implies {
            let m = #[trigger] messages[i];
            &&& m.role == after[i].role
            &&& m.name == after[i].name
            &&& m.tool_call_id == after[i].tool_call_id
            &&& m.content.len() == after[i].content.len()
        } by {
            assert(before[i].role == after[i].role);
        }
    }
}

/// Messages with all outputs emptied but the newest `keep`, and whether there was one.
pub open spec fn cleared(messages: Seq<MessageView>, keep: nat) -> (Seq<MessageView>, bool) {
    let at = result_places(messages);
    if at.len() <= keep {
        (messages, false)
    } else {
        blank_all(messages, at.take(at.len() - keep))
    }
}

/// Empties all outputs but the newest `keep`; says whether there was one.
pub fn clear_results(messages: &mut Vec<UnifiedMessage>, keep: usize) -> (r: bool)
    ensures
        (message_views(final(messages)@), r) == cleared(message_views(old(messages)@), keep as nat),
{
    let ghost all = message_views(messages@);
    let at = collect_places(messages);
    let ghost spots = result_places(all);
    if at.len() <= keep {
        assert(places(at@).len() == at@.len());
        return false;
    }
    let n: usize = at.len() - keep;
    let mut blanked = false;
    let mut i: usize = 0;
    proof {
        assert(places(at@).len() == at@.len());
        lemma_result_places(all);
        assert(spots.take(0) =~= Seq::<(int, Option<int>)>::empty());
    }
    while i < n
        invariant
            i <= n <= at@.len(),
            spots == places(at@),
            spots == result_places(all),
            forall|k: int| 0 <= k < spots.len() ==> in_bounds(all, #[trigger] spots[k]),
            (message_views(messages@), blanked) == blank_all(all, spots.take(i as int)),
        decreases n - i,
    {
        proof {
            assert forall|k: int| 0 <= k < spots.take(i as int).len() implies in_bounds(
                all,
                #[trigger] spots.take(i as int)[k],
            ) by {
                assert(spots.take(i as int)[k] == spots[k]);
            }
            lemma_blank_all_shape(all, spots.take(i as int));
            assert(spots[i as int] == place(at@[i as int]));
            assert(in_bounds(all, spots[i as int]));
            assert(spots.take(i + 1).drop_last() =~= spots.take(i as int));
            assert(spots.take(i + 1).last() == spots[i as int]);
            let now = message_views(messages@);
            assert(all[spots[i as int].0].content.len() == now[spots[i as int].0].content.len());
        }
        let one = blank_result(messages, at[i]);
        blanked = blanked || one;
        i = i + 1;
    }
    blanked
}

/// The first result of the call with the id among blocks, from block `b` on.
pub open spec fn result_block(content: Seq<BlockView>, id: Seq<char>, b: int) -> Option<int>
    decreases content.len() - b,
{
    if b < 0 || b >= content.len() {
        None
    } else if returns_result(content[b], id) {
        Some(b)
    } else {
        result_block(content, id, b + 1)
    }
}

/// The place of the output of the call with the id, from message `i` on: in the first message
/// that holds a result of the call. A tool's message without text has none.
pub open spec fn result_place(messages: Seq<MessageView>, id: Seq<char>, i: int) -> Option<
    (int, Option<int>),
>
    decreases messages.len() - i,
{
    if i < 0 || i >= messages.len() {
        None
    } else if messages[i].role == MessageRole::Tool && messages[i].tool_call_id == Some(id) {
        if has_text(messages[i]) {
            Some((i, None))
        } else {
            None
        }
    } else {
        match result_block(messages[i].content, id, 0) {
            Some(b) => Some((i, Some(b))),
            None => result_place(messages, id, i + 1),
        }
    }
}

/// Whether a message has a text block.
fn message_has_text(message: &UnifiedMessage) -> (r: bool)
    ensures
        r == has_text(message@),
{
    let ghost all = message@.content;
    let mut b: usize = 0;
    while b < message.content.len()
        invariant
            all == block_views(message.content@),
            b <= all.len(),
            forall|k: int| 0 <= k < b ==> !(#[trigger] all[k] is Text),
        decreases message.content@.len() - b,
    {
        assert(all[b as int] == message.content@[b as int]@);
        if let MessageContentBlock::Text(_) = &message.content[b] {
            assert(message@.content[b as int] is Text);
            return true;
        }
        b = b + 1;
    }
    false
}

/// The first result of the call with the id among blocks.
fn find_block(content: &Vec<MessageContentBlock>, id: &str) -> (r: Option<usize>)
    ensures
        match r {
            Some(b) => result_block(block_views(content@), id@, 0) == Some(b as int) && b
                < content@.len(),
            None => result_block(block_views(content@), id@, 0) is None,
        },
{
    let ghost all = block_views(content@);
    let mut b: usize = 0;
    while b < content.len()
        invariant
            all == block_views(content@),
            b <= all.len(),
            result_block(all, id@, 0) == result_block(all, id@, b as int),
        decreases content@.len() - b,
    {
        assert(all[b as int] == content@[b as int]@);
        if let MessageContentBlock::ToolResult { tool_call_id, .. } = &content[b] {
            if str_eq(tool_call_id.as_str(), id) {
                return Some(b);
            }
        }
        b = b + 1;
    }
    None
}

/// The place of the output of the call with the id.
fn find_result_location(messages: &Vec<UnifiedMessage>, id: &str) -> (r: Option<
    (usize, Option<usize>),
>)
    ensures
        match r {
            Some(at) => result_place(message_views(messages@), id@, 0) == Some(place(at))
                && in_bounds(message_views(messages@), place(at)),
            None => result_place(message_views(messages@), id@, 0) is None,
        },
{
    let ghost all = message_views(messages@);
    let mut i: usize = 0;
    while i < messages.len()
        invariant
            all == message_views(messages@),
            i <= all.len(),
            result_place(all, id@, 0) == result_place(all, id@, i as int),
        decreases messages@.len() - i,
    {
        let message = &messages[i];
        assert(all[i as int] == message@);
        if message.role == MessageRole::Tool {
            if let Some(call) = &message.tool_call_id {
                if str_eq(call.as_str(), id) {
                    if message_has_text(message) {
                        return Some((i, None));
                    }
                    return None;
                }
            }
        }
        if let Some(b) = find_block(&message.content, id) {
            return Some((i, Some(b)));
        }
        i = i + 1;
    }
    None
}

/// The id and the path of a block that reads a file.
pub open spec fn read_of(b: BlockView, tool: Seq<char>) -> Option<(Seq<char>, Seq<char>)> {
    match b {
        BlockView::ToolCall { id, name, arguments } => if name == tool {
            match json_member(arguments, "path"@) {
                Some(JsonView::String(path)) => Some((id, path)),
                _ => None,
            }
        } else {
            None
        },
        _ => None,
    }
}

/// The reads of files in blocks, in order.
pub open spec fn block_reads(content: Seq<BlockView>, tool: Seq<char>) -> Seq<
    (Seq<char>, Seq<char>),
>
    decreases content.len(),
{
    if content.len() == 0 {
        Seq::empty()
    } else {
        let before = block_reads(content.drop_last(), tool);
        match read_of(content.last(), tool) {
            Some(read) => before.push(read),
            None => before,
        }
    }
}

/// The reads of files in the messages from `i` on, the newest message first.
pub open spec fn reads_from(messages: Seq<MessageView>, tool: Seq<char>, i: int) -> Seq<
    (Seq<char>, Seq<char>),
>
    decreases messages.len() - i,
{
    if i < 0 || i >= messages.len() {
        Seq::empty()
    } else {
        reads_from(messages, tool, i + 1) + block_reads(messages[i].content, tool)
    }
}

/// Messages in which the outputs of superseded reads are emptied, and what has been seen.
#[verifier::ext_equal]
pub struct DedupState {
    /// The messages.
    pub messages: Seq<MessageView>,
    /// The paths whose newest read has been passed.
    pub seen: Seq<Seq<char>>,
    /// Whether an output has been emptied.
    pub blanked: bool,
}

/// One read more. A read without an output is passed over; the newest read of a path keeps its
/// output; the output of an older one is emptied.
pub open spec fn dedup_step(s: DedupState, read: (Seq<char>, Seq<char>)) -> DedupState {
    match result_place(s.messages, read.0, 0) {
        None => s,
        Some(at) => if s.seen.contains(read.1) {
            DedupState {
                messages: blank_at(s.messages, at),
                seen: s.seen,
                blanked: s.blanked || holds_output(s.messages, at),
            }
        } else {
            DedupState { seen: s.seen.push(read.1), ..s }
        },
    }
}

/// Reads in turn.
pub open spec fn dedup_all(
    messages: Seq<MessageView>,
    reads: Seq<(Seq<char>, Seq<char>)>,
) -> DedupState
    decreases reads.len(),
{
    if reads.len() == 0 {
        DedupState { messages, seen: Seq::empty(), blanked: false }
    } else {
        dedup_step(dedup_all(messages, reads.drop_last()), reads.last())
    }
}

/// Messages in which the outputs of superseded reads are emptied, and whether there was one.
pub open spec fn deduplicated(messages: Seq<MessageView>, tool: Seq<char>) -> (
    Seq<MessageView>,
    bool,
) {
    let s = dedup_all(messages, reads_from(messages, tool, 0));
    (s.messages, s.blanked)
}

/// The texts of pairs.
pub open spec fn pair_texts(v: Seq<(String, String)>) -> Seq<(Seq<char>, Seq<char>)> {
    Seq::new(v.len(), |i: int| (v[i].0@, v[i].1@))
}

/// The id and the path of a block that reads a file.
fn file_read(block: &MessageContentBlock, tool: &str) -> (r: Option<(String, String)>)
    ensures
        match read_of(block@, tool@) {
            Some(read) => r matches Some(pair) && (pair.0@, pair.1@) == read,
            None => r is None,
        },
{
    broadcast use lemma_json_view;

    if let MessageContentBlock::ToolCall { id, name, arguments } = block {
        if str_eq(name.as_str(), tool) {
            if let Some(value) = arguments.get("path") {
                if let Some(path) = value.as_str() {
                    return Some((id.clone(), path.to_owned()));
                }
            }
        }
    }
    None
}

/// The reads of files, the newest message first.
fn collect_reads(messages: &Vec<UnifiedMessage>, tool: &str) -> (r: Vec<(String, String)>)
    ensures
        pair_texts(r@) == reads_from(message_views(messages@), tool@, 0),
{
    let ghost all = message_views(messages@);
    let mut r: Vec<(String, String)> = Vec::new();
    let mut i: usize = messages.len();
    assert(pair_texts(r@) =~= reads_from(all, tool@, i as int));
    while i > 0
        invariant
            i <= messages@.len(),
            all == message_views(messages@),
            pair_texts(r@) == reads_from(all, tool@, i as int),
        decreases i,
    {
        i = i - 1;
        let ghost start = pair_texts(r@);
        let content = &messages[i].content;
        let ghost blocks = block_views(content@);
        let mut b: usize = 0;
        assert(blocks.take(0) =~= Seq::<BlockView>::empty());
        assert(pair_texts(r@) =~= start + block_reads(blocks.take(0), tool@));
        while b < content.len()
            invariant
                blocks == block_views(content@),
                b <= blocks.len(),
                pair_texts(r@) == start + block_reads(blocks.take(b as int), tool@),
            decreases content@.len() - b,
        {
            let ghost before = pair_texts(r@);
            proof {
                assert(blocks.take(b + 1).drop_last() =~= blocks.take(b as int));
                assert(blocks.take(b + 1).last() == content@[b as int]@);
            }
            if let Some(read) = file_read(&content[b], tool) {
                r.push(read);
                assert(pair_texts(r@) =~= before.push((read.0@, read.1@)));
                assert(pair_texts(r@) =~= start + block_reads(blocks.take(b + 1), tool@));
            }
            b = b + 1;
        }
        assert(blocks.take(b as int) =~= blocks);
        assert(all[i as int].content == blocks);
    }
    r
}

/// Whether a text is in a list.
fn list_contains(v: &Vec<String>, text: &str) -> (r: bool)
    ensures
        r == texts(v@).contains(text@),
{
    let mut i: usize = 0;
    while i < v.len()
        invariant
            i <= v@.len(),
            forall|k: int| 0 <= k < i ==> (#[trigger] v@[k])@ != text@,
        decreases v@.len() - i,
    {
        if str_eq(v[i].as_str(), text) {
            assert(texts(v@)[i as int] == text@);
            return true;
        }
        i = i + 1;
    }
    assert forall|k: int| 0 <= k < texts(v@).len() implies texts(v@)[k] != text@ by {
        assert(v@[k]@ != text@);
    }
    false
}

/// Empties the outputs of superseded reads; says whether there was one.
pub fn dedup_reads(messages: &mut Vec<UnifiedMessage>, tool: &str) -> (r: bool)
    ensures
        (message_views(final(messages)@), r) == deduplicated(message_views(old(messages)@), tool@),
{
    let ghost all = message_views(messages@);
    let reads = collect_reads(messages, tool);
    let ghost pairs = pair_texts(reads@);
    let mut seen: Vec<String> = Vec::new();
    let mut blanked = false;
    let mut i: usize = 0;
    proof {
        assert(pairs.take(0) =~= Seq::<(Seq<char>, Seq<char>)>::empty());
        assert(texts(seen@) =~= Seq::<Seq<char>>::empty());
    }
    while i < reads.len()
        invariant
            i <= reads@.len(),
            pairs == pair_texts(reads@),
            ({
                let s = dedup_all(all, pairs.take(i as int));
                &&& message_views(messages@) == s.messages
                &&& texts(seen@) == s.seen
                &&& blanked == s.blanked
            }),
        decreases reads@.len() - i,
    {
        proof {
            assert(pairs.take(i + 1).drop_last() =~= pairs.take(i as int));
            assert(pairs.take(i + 1).last() == pairs[i as int]);
        }
        let (id, path) = &reads[i];
        if let Some(at) = find_result_location(messages, id.as_str()) {
            if list_contains(&seen, path.as_str()) {
                let one = blank_result(messages, at);
                blanked = blanked || one;
            } else {
                let ghost before = texts(seen@);
                seen.push(path.clone());
                assert(texts(seen@) =~= before.push(path@));
            }
        }
        i = i + 1;
    }
    assert(pairs.take(i as int) =~= pairs);
    blanked
}

/// What stands where a text was cut.
pub const CLAMP_MARKER: &'static str = "\n\u{2026}[truncated]\u{2026}\n";

/// A text cut down to a quarter from each end.
pub open spec fn clamped_text(s: Seq<char>) -> Seq<char> {
    if s.len() <= CLAMP_MARKER@.len() * 2 {
        CLAMP_MARKER@
    } else {
        let side = (s.len() / 4) as int;
        s.take(side) + CLAMP_MARKER@ + s.skip(s.len() - side)
    }
}

/// A text cut down to a quarter from each end.
pub fn clamp_oversized(s: &str) -> (r: String)
    ensures
        r@ == clamped_text(s@),
{
    let total: usize = s.unicode_len();
    let marker: usize = CLAMP_MARKER.unicode_len();
    if total / 2 < marker || (total / 2 == marker && total % 2 == 0) {
        return CLAMP_MARKER.to_owned();
    }
    let side: usize = total / 4;
    let head = s.substring_char(0, side);
    let tail = s.substring_char(total - side, total);
    assert(head@ =~= s@.take(side as int));
    assert(tail@ =~= s@.skip(total - side));
    head.to_owned().concat(CLAMP_MARKER).concat(tail)
}

/// A text has more tokens than allowed. A text that cannot be split has none.
pub open spec fn is_oversized(encoder: Encoder, text: Seq<char>, max: u32) -> bool {
    token_count(encoder, text) matches Some(n) && n % 0x1_0000_0000 > max
}

/// Whether a text has more tokens than allowed.
fn exceeds(encoder: Encoder, text: &str, max: u32) -> (r: bool)
    ensures
        r == is_oversized(encoder, text@, max),
{
    match count_tokens(encoder, text) {
        Some(n) => (n as u128 % 0x1_0000_0000) as u32 > max,
        None => false,
    }
}

/// The text of a block that may be cut: arguments only where they are one string.
pub open spec fn part_of(b: BlockView) -> Option<Seq<char>> {
    match b {
        BlockView::Text(text) => Some(text),
        BlockView::Thinking { reasoning, .. } => Some(reasoning),
        BlockView::ToolResult { output, .. } => Some(output),
        BlockView::ToolCall { arguments: JsonView::String(text), .. } => Some(text),
        _ => None,
    }
}

/// A block with another text.
pub open spec fn with_part(b: BlockView, part: Seq<char>) -> BlockView {
    match b {
        BlockView::Text(_) => BlockView::Text(part),
        BlockView::Thinking { signature, .. } => BlockView::Thinking { reasoning: part, signature },
        BlockView::ToolResult { tool_call_id, .. } => BlockView::ToolResult {
            tool_call_id,
            output: part,
        },
        BlockView::ToolCall { id, name, .. } => BlockView::ToolCall {
            id,
            name,
            arguments: JsonView::String(part),
        },
        _ => b,
    }
}

/// A block is cut.
pub open spec fn is_cut(encoder: Encoder, max: u32, b: BlockView) -> bool {
    part_of(b) matches Some(part) && is_oversized(encoder, part, max)
}

/// A block, cut where it is too long.
pub open spec fn clamp_block(encoder: Encoder, max: u32, b: BlockView) -> BlockView {
    if is_cut(encoder, max, b) {
        with_part(b, clamped_text(part_of(b)->0))
    } else {
        b
    }
}

/// Messages with every block cut that is too long.
pub open spec fn clamp_messages(
    encoder: Encoder,
    max: u32,
    messages: Seq<MessageView>,
) -> Seq<MessageView> {
    Seq::new(
        messages.len(),
        |i: int|
            MessageView {
                content: Seq::new(
                    messages[i].content.len(),
                    |b: int| clamp_block(encoder, max, messages[i].content[b]),
                ),
                ..messages[i]
            },
    )
}

/// Some block is cut.
pub open spec fn any_cut(encoder: Encoder, max: u32, messages: Seq<MessageView>) -> bool {
    exists|i: int, b: int|
        0 <= i < messages.len() && 0 <= b < messages[i].content.len() && #[trigger] is_cut(
            encoder,
            max,
            messages[i].content[b],
        )
}

/// A block, cut where it is too long, and whether it is.
fn clamp_one(encoder: Encoder, max: u32, block: MessageContentBlock) -> (r: (
    MessageContentBlock,
    bool,
))
    ensures
        r.0@ == clamp_block(encoder, max, block@),
        r.1 == is_cut(encoder, max, block@),
{
    broadcast use lemma_json_view;

    match block {
        MessageContentBlock::Text(text) => if exceeds(encoder, text.as_str(), max) {
            (MessageContentBlock::Text(clamp_oversized(text.as_str())), true)
        } else {
            (MessageContentBlock::Text(text), false)
        },
        MessageContentBlock::Thinking {
            reasoning,
            signature,
        } => if exceeds(encoder, reasoning.as_str(), max) {
            (
                MessageContentBlock::Thinking {
                    reasoning: clamp_oversized(reasoning.as_str()),
                    signature,
                },
                true,
            )
        } else {
            (MessageContentBlock::Thinking { reasoning, signature }, false)
        },
        MessageContentBlock::ToolResult {
            tool_call_id,
            output,
        } => if exceeds(encoder, output.as_str(), max) {
            (
                MessageContentBlock::ToolResult {
                    tool_call_id,
                    output: clamp_oversized(output.as_str()),
                },
                true,
            )
        } else {
            (MessageContentBlock::ToolResult { tool_call_id, output }, false)
        },
        MessageContentBlock::ToolCall { id, name, arguments } => match arguments {
            Json::String(text) => if exceeds(encoder, text.as_str(), max) {
                (
                    MessageContentBlock::ToolCall {
                        id,
                        name,
                        arguments: Json::String(clamp_oversized(text.as_str())),
                    },
                    true,
                )
            } else {
                (MessageContentBlock::ToolCall { id, name, arguments: Json::String(text) }, false)
            },
            other => (MessageContentBlock::ToolCall { id, name, arguments: other }, false),
        },
        MessageContentBlock::ImageBase64 { media_type, data } => (
            MessageContentBlock::ImageBase64 { media_type, data },
            false,
        ),
    }
}

/// Blocks, each cut where it is too long, and whether one is.
fn clamp_blocks(encoder: Encoder, max: u32, content: Vec<MessageContentBlock>) -> (r: (
    Vec<MessageContentBlock>,
    bool,
))
    ensures
        block_views(r.0@) == Seq::new(
            content@.len(),
            |b: int| clamp_block(encoder, max, block_views(content@)[b]),
        ),
        r.1 == exists|b: int|
            0 <= b < content@.len() && #[trigger] is_cut(
                encoder,
                max,
                block_views(content@)[b],
            ),
{
    let ghost all = block_views(content@);
    let mut r: Vec<MessageContentBlock> = Vec::new();
    let mut cut = false;
    for block in it: content
        invariant
            it.seq() == content@,
            all == block_views(content@),
            r@.len() == it.index(),
            forall|k: int|
                0 <= k < it.index() ==> (#[trigger] r@[k])@ == clamp_block(encoder, max, all[k]),
            cut == exists|k: int| 0 <= k < it.index() && #[trigger] is_cut(encoder, max, all[k]),
    {
        assert(block@ == all[it.index()]);
        let (after, one) = clamp_one(encoder, max, block);
        r.push(after);
        if one {
            assert(is_cut(encoder, max, all[it.index()]));
        }
        cut = cut || one;
    }
    assert(block_views(r@) =~= Seq::new(all.len(), |b: int| clamp_block(encoder, max, all[b])));
    (r, cut)
}

/// Cuts every block that is too long; says whether there was one.
pub fn clamp_parts(encoder: Encoder, max: u32, messages: &mut Vec<UnifiedMessage>) -> (r: bool)
    ensures
        message_views(final(messages)@) == clamp_messages(
            encoder,
            max,
            message_views(old(messages)@),
        ),
        r == any_cut(encoder, max, message_views(old(messages)@)),
{
    let ghost all = message_views(messages@);
    let ghost goal = clamp_messages(encoder, max, all);
    let mut cut = false;
    let mut i: usize = 0;
    while i < messages.len()
        invariant
            messages@.len() == all.len(),
            goal == clamp_messages(encoder, max, all),
            i <= all.len(),
            forall|k: int| 0 <= k < i ==> (#[trigger] messages@[k])@ == goal[k],
            forall|k: int| i <= k < all.len() ==> (#[trigger] messages@[k])@ == all[k],
            cut == exists|k: int, b: int|
                0 <= k < i && 0 <= b < all[k].content.len() && #[trigger] is_cut(
                    encoder,
                    max,
                    all[k].content[b],
                ),
        decreases all.len() - i,
    {
        assert(messages@[i as int]@ == all[i as int]);
        let mut content: Vec<MessageContentBlock> = Vec::new();
        std::mem::swap(&mut content, &mut messages[i].content);
        assert(block_views(content@) == all[i as int].content);
        let (after, one) = clamp_blocks(encoder, max, content);
        messages[i].content = after;
        assert(messages@[i as int]@ =~= goal[i as int]);
        if one {
            let ghost b = choose|b: int|
                0 <= b < content@.len() && #[trigger] is_cut(encoder, max, all[i as int].content[b]);
            assert(is_cut(encoder, max, all[i as int].content[b]));
        }
        cut = cut || one;
        i = i + 1;
    }
    assert(message_views(messages@) =~= goal);
    cut
}

} // verus!
