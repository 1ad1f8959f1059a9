//! Which outputs of file reads are emptied, and which stay.

use crate::json::{json_member, JsonView};
use crate::plugins::memory::compaction::{
    blank_at, block_reads, dedup_all, dedup_step, deduplicated, has_text, in_bounds, read_of,
    reads_from, result_block, result_place, returns_result, DedupState,
};
use crate::types::{BlockView, MessageRole, MessageView};
use vstd::prelude::*;

verus! {

/// The block at a place is a call of the tool that reads the path.
pub open spec fn reads_at(
    messages: Seq<MessageView>,
    tool: Seq<char>,
    i: int,
    b: int,
    id: Seq<char>,
    path: Seq<char>,
) -> bool {
    &&& 0 <= i < messages.len()
    &&& 0 <= b < messages[i].content.len()
    &&& messages[i].content[b] matches BlockView::ToolCall { id: call, name, arguments } && call
        == id && name == tool && json_member(arguments, "path"@) == Some(JsonView::String(path))
}

/// The output at a place takes in the block: the result that stands there, or, in a tool's
/// message, every text.
pub open spec fn takes_in(
    messages: Seq<MessageView>,
    at: (int, Option<int>),
    i: int,
    b: int,
) -> bool {
    at.0 == i && match at.1 {
        Some(c) => c == b,
        None => messages[i].content[b] is Text,
    }
}

/// A block with nothing in it.
pub open spec fn emptied(b: BlockView) -> BlockView {
    match b {
        BlockView::Text(_) => BlockView::Text(Seq::empty()),
        BlockView::ToolResult { tool_call_id, .. } => BlockView::ToolResult {
            tool_call_id,
            output: Seq::empty(),
        },
        _ => b,
    }
}

/// The read at a place, of which the output stands at `at`, is superseded: the same path is read
/// again by the same tool, with an output, in a later message, or before it in its own.
pub open spec fn is_superseded(
    messages: Seq<MessageView>,
    tool: Seq<char>,
    i: int,
    b: int,
    at: (int, Option<int>),
) -> bool {
    exists|id: Seq<char>, path: Seq<char>, j: int, d: int, other: Seq<char>|
        {
            &&& #[trigger] reads_at(messages, tool, i, b, id, path)
            &&& #[trigger] reads_at(messages, tool, j, d, other, path)
            &&& result_place(messages, id, 0) == Some(at)
            &&& result_place(messages, other, 0) is Some
            &&& j > i || (j == i && d < b)
        }
}

/// Two lists of messages with results and texts at the same places.
spec fn alike(a: Seq<MessageView>, b: Seq<MessageView>) -> bool {
    &&& a.len() == b.len()
    &&& forall|i: int|
        0 <= i < a.len() ==> {
            let m = #[trigger] a[i];
            &&& m.role == b[i].role
            &&& m.tool_call_id == b[i].tool_call_id
            &&& m.content.len() == b[i].content.len()
            &&& forall|c: int|
                0 <= c < m.content.len() ==> alike_block(#[trigger] m.content[c], b[i].content[c])
        }
}

/// Two blocks of one kind, of the same call.
spec fn alike_block(x: BlockView, y: BlockView) -> bool {
    &&& x is Text <==> y is Text
    &&& x is ToolResult <==> y is ToolResult
    &&& x matches BlockView::ToolResult { tool_call_id, .. } ==> y
        matches BlockView::ToolResult { tool_call_id: other, .. } && other == tool_call_id
}

/// Results stand at the same blocks of alike content.
proof fn lemma_alike_block(a: Seq<BlockView>, b: Seq<BlockView>, id: Seq<char>, c: int)
    requires
        a.len() == b.len(),
        forall|k: int| 0 <= k < a.len() ==> alike_block(#[trigger] a[k], b[k]),
    ensures
        result_block(a, id, c) == result_block(b, id, c),
        result_block(a, id, c) matches Some(k) ==> c <= k < a.len() && returns_result(a[k], id),
    decreases a.len() - c,
{
    if 0 <= c < a.len() {
        assert(alike_block(a[c], b[c]));
        lemma_alike_block(a, b, id, c + 1);
    }
}

/// Results stand at the same places of alike messages.
proof fn lemma_alike(a: Seq<MessageView>, b: Seq<MessageView>, id: Seq<char>, i: int)
    requires
        alike(a, b),
    ensures
        result_place(a, id, i) == result_place(b, id, i),
    decreases a.len() - i,
{
    if 0 <= i < a.len() {
        let m = a[i];
        let n = b[i];
        assert(m.role == n.role);
        lemma_alike_block(m.content, n.content, id, 0);
        if has_text(m) {
            let c = choose|c: int| 0 <= c < m.content.len() && #[trigger] m.content[c] is Text;
            assert(alike_block(m.content[c], n.content[c]));
            assert(n.content[c] is Text);
        }
        if has_text(n) {
            let c = choose|c: int| 0 <= c < n.content.len() && #[trigger] n.content[c] is Text;
            assert(alike_block(m.content[c], n.content[c]));
            assert(m.content[c] is Text);
        }
        lemma_alike(a, b, id, i + 1);
    }
}

/// Messages are alike themselves.
proof fn lemma_alike_self(a: Seq<MessageView>)
    ensures
        alike(a, a),
{
}

/// The place of a result is in bounds, and a result of the call, or a text, stands there.
proof fn lemma_place(messages: Seq<MessageView>, id: Seq<char>, i: int)
    requires
        0 <= i,
    ensures
        result_place(messages, id, i) matches Some(at) ==> {
            &&& in_bounds(messages, at)
            &&& i <= at.0
            &&& at.1 matches Some(b) ==> returns_result(messages[at.0].content[b], id)
            &&& at.1 is None ==> messages[at.0].role == MessageRole::Tool
                && messages[at.0].tool_call_id == Some(id) && has_text(messages[at.0])
            &&& forall|k: int|
                i <= k < at.0 ==> !holds_result(#[trigger] messages[k], id)
        },
    decreases messages.len() - i,
{
    if i < messages.len() {
        lemma_place(messages, id, i + 1);
        let m = messages[i];
        lemma_block_place(m.content, id, 0);
        if let Some(at) = result_place(messages, id, i) {
            if at.0 > i {
                assert(!holds_result(m, id));
            }
        }
    }
}

/// The first result of a call among blocks, where there is one.
proof fn lemma_block_place(content: Seq<BlockView>, id: Seq<char>, b: int)
    requires
        0 <= b,
    ensures
        match result_block(content, id, b) {
            Some(k) => b <= k < content.len() && returns_result(content[k], id) && forall|j: int|
                b <= j < k ==> !returns_result(#[trigger] content[j], id),
            None => forall|j: int|
                b <= j < content.len() ==> !returns_result(#[trigger] content[j], id),
        },
    decreases content.len() - b,
{
    if b < content.len() && !returns_result(content[b], id) {
        lemma_block_place(content, id, b + 1);
    }
}

/// A message holds a result of the call: it is the tool's own, or has a block that is one.
pub open spec fn holds_result(m: MessageView, id: Seq<char>) -> bool {
    ||| m.role == MessageRole::Tool && m.tool_call_id == Some(id)
    ||| exists|b: int|
        0 <= b < m.content.len() && (#[trigger] m.content[b] matches BlockView::ToolResult {
            tool_call_id,
            ..
        } && tool_call_id == id)
}

/// The output of a call is found in the first message that holds a result of it: in the first
/// such block, or in the texts of a tool's message. Only a call without a result, or with a
/// tool's message without a text, has none.
pub proof fn law_outputs_are_found_first(messages: Seq<MessageView>, id: Seq<char>, k: int)
    requires
        0 <= k < messages.len(),
        holds_result(messages[k], id),
        forall|j: int| 0 <= j < k ==> !holds_result(#[trigger] messages[j], id),
    ensures
        ({
            let m = messages[k];
            let at = result_place(messages, id, 0);
            let text = exists|b: int| 0 <= b < m.content.len() && #[trigger] m.content[b] is Text;
            if m.role == MessageRole::Tool && m.tool_call_id == Some(id) {
                at == (if text {
                    Some((k, None::<int>))
                } else {
                    None
                })
            } else {
                at matches Some((i, Some(b))) && i == k && 0 <= b < m.content.len() && (
                m.content[b] matches BlockView::ToolResult { tool_call_id, .. } && tool_call_id
                    == id) && forall|c: int|
                    0 <= c < b ==> !returns_result(#[trigger] m.content[c], id)
            }
        }),
{
    lemma_found_first(messages, id, k, 0);
}

/// The output of a call is found in the first message from `i` on that holds a result of it.
proof fn lemma_found_first(messages: Seq<MessageView>, id: Seq<char>, k: int, i: int)
    requires
        0 <= i <= k < messages.len(),
        holds_result(messages[k], id),
        forall|j: int| i <= j < k ==> !holds_result(#[trigger] messages[j], id),
    ensures
        ({
            let m = messages[k];
            let at = result_place(messages, id, i);
            let text = exists|b: int| 0 <= b < m.content.len() && #[trigger] m.content[b] is Text;
            if m.role == MessageRole::Tool && m.tool_call_id == Some(id) {
                at == (if text {
                    Some((k, None::<int>))
                } else {
                    None
                })
            } else {
                at matches Some((i, Some(b))) && i == k && 0 <= b < m.content.len() && (
                m.content[b] matches BlockView::ToolResult { tool_call_id, .. } && tool_call_id
                    == id) && forall|c: int|
                    0 <= c < b ==> !returns_result(#[trigger] m.content[c], id)
            }
        }),
    decreases k - i,
{
    lemma_block_place(messages[i].content, id, 0);
    if i < k {
        assert(!holds_result(messages[i], id));
        if let Some(b) = result_block(messages[i].content, id, 0) {
            assert(messages[i].content[b] is ToolResult);
        }
        lemma_found_first(messages, id, k, i + 1);
    } else {
        let m = messages[k];
        if !(m.role == MessageRole::Tool && m.tool_call_id == Some(id)) {
            let b = choose|b: int|
                0 <= b < m.content.len() && (#[trigger] m.content[b] matches BlockView::ToolResult {
                    tool_call_id,
                    ..
                } && tool_call_id == id);
            assert(returns_result(m.content[b], id));
        }
    }
}

/// The position of a read among the reads.
spec fn read_index(messages: Seq<MessageView>, tool: Seq<char>, i: int, b: int) -> int {
    (reads_from(messages, tool, i + 1).len() + block_reads(
        messages[i].content.take(b),
        tool,
    ).len()) as int
}

/// The reads among the first blocks come first.
proof fn lemma_block_reads(content: Seq<BlockView>, tool: Seq<char>, b: int)
    requires
        0 <= b < content.len(),
        read_of(content[b], tool) is Some,
    ensures
        block_reads(content.take(b), tool).len() < block_reads(content, tool).len(),
        block_reads(content, tool)[block_reads(content.take(b), tool).len() as int] == read_of(
            content[b],
            tool,
        )->0,
    decreases content.len(),
{
    let rest = content.drop_last();
    if b == content.len() - 1 {
        assert(content.take(b) =~= rest);
    } else {
        assert(rest[b] == content[b]);
        lemma_block_reads(rest, tool, b);
        assert(rest.take(b) =~= content.take(b));
    }
}

/// Among fewer blocks there are no more reads.
proof fn lemma_fewer_reads(content: Seq<BlockView>, tool: Seq<char>, d: int, b: int)
    requires
        0 <= d <= b <= content.len(),
    ensures
        block_reads(content.take(d), tool).len() <= block_reads(content.take(b), tool).len(),
        d < b && read_of(content[d], tool) is Some ==> block_reads(content.take(d), tool).len()
            < block_reads(content.take(b), tool).len(),
    decreases b,
{
    if d < b {
        lemma_fewer_reads(content, tool, d, b - 1);
        assert(content.take(b).drop_last() =~= content.take(b - 1));
        assert(content.take(b).last() == content[b - 1]);
    }
}

/// The reads of later messages come first.
proof fn lemma_reads_prefix(messages: Seq<MessageView>, tool: Seq<char>, i: int, j: int)
    requires
        0 <= i <= j <= messages.len(),
    ensures
        reads_from(messages, tool, j).len() <= reads_from(messages, tool, i).len(),
        reads_from(messages, tool, i).take(reads_from(messages, tool, j).len() as int)
            == reads_from(messages, tool, j),
    decreases j - i,
{
    let here = reads_from(messages, tool, i);
    if i == j {
        assert(here.take(here.len() as int) =~= here);
    } else {
        lemma_reads_prefix(messages, tool, i + 1, j);
        let next = reads_from(messages, tool, i + 1);
        let n = reads_from(messages, tool, j).len() as int;
        assert(here =~= next + block_reads(messages[i].content, tool));
        assert(here.take(n) =~= next.take(n));
    }
}

/// A read stands at its position.
proof fn lemma_read_stands(
    messages: Seq<MessageView>,
    tool: Seq<char>,
    i: int,
    b: int,
    id: Seq<char>,
    path: Seq<char>,
)
    requires
        reads_at(messages, tool, i, b, id, path),
    ensures
        0 <= read_index(messages, tool, i, b) < reads_from(messages, tool, 0).len(),
        reads_from(messages, tool, 0)[read_index(messages, tool, i, b)] == (id, path),
        read_index(messages, tool, i, b) < reads_from(messages, tool, i).len(),
{
    let content = messages[i].content;
    assert(read_of(content[b], tool) == Some((id, path)));
    lemma_block_reads(content, tool, b);
    let all = reads_from(messages, tool, 0);
    let here = reads_from(messages, tool, i);
    let next = reads_from(messages, tool, i + 1);
    let n = read_index(messages, tool, i, b);
    assert(here == next + block_reads(content, tool));
    assert(here[n] == (id, path));
    lemma_reads_prefix(messages, tool, 0, i);
    assert(all.take(here.len() as int)[n] == all[n]);
}

/// Of two reads, the one in the later message, or before the other in one message, comes first.
proof fn lemma_read_order(
    messages: Seq<MessageView>,
    tool: Seq<char>,
    i: int,
    b: int,
    j: int,
    d: int,
)
    requires
        0 <= i < messages.len(),
        0 <= b < messages[i].content.len(),
        0 <= j < messages.len(),
        0 <= d < messages[j].content.len(),
        read_of(messages[j].content[d], tool) is Some,
        j > i || (j == i && d < b),
    ensures
        read_index(messages, tool, j, d) < read_index(messages, tool, i, b),
{
    if j == i {
        lemma_fewer_reads(messages[i].content, tool, d, b);
    } else {
        lemma_block_reads(messages[j].content, tool, d);
        lemma_reads_prefix(messages, tool, i + 1, j);
        let at_j = reads_from(messages, tool, j);
        assert(at_j.len() == reads_from(messages, tool, j + 1).len() + block_reads(
            messages[j].content,
            tool,
        ).len());
    }
}

/// Every read comes from a block.
proof fn lemma_read_origin(messages: Seq<MessageView>, tool: Seq<char>, start: int, n: int) -> (at: (
    int,
    int,
))
    requires
        0 <= start <= messages.len(),
        0 <= n < reads_from(messages, tool, start).len(),
    ensures
        start <= at.0,
        reads_at(
            messages,
            tool,
            at.0,
            at.1,
            reads_from(messages, tool, start)[n].0,
            reads_from(messages, tool, start)[n].1,
        ),
        read_index(messages, tool, at.0, at.1) == n,
    decreases messages.len() - start,
{
    let next = reads_from(messages, tool, start + 1);
    let here = block_reads(messages[start].content, tool);
    assert(reads_from(messages, tool, start) == next + here);
    if n < next.len() {
        lemma_read_origin(messages, tool, start + 1, n)
    } else {
        let b = lemma_block_origin(messages[start].content, tool, n - next.len());
        (start, b)
    }
}

/// Every read among blocks comes from one.
proof fn lemma_block_origin(content: Seq<BlockView>, tool: Seq<char>, n: int) -> (b: int)
    requires
        0 <= n < block_reads(content, tool).len(),
    ensures
        0 <= b < content.len(),
        read_of(content[b], tool) == Some(block_reads(content, tool)[n]),
        block_reads(content.take(b), tool).len() == n,
    decreases content.len(),
{
    let rest = content.drop_last();
    let before = block_reads(rest, tool);
    if n < before.len() {
        let b = lemma_block_origin(rest, tool, n);
        assert(rest.take(b) =~= content.take(b));
        b
    } else {
        assert(content.take(content.len() - 1) =~= rest);
        content.len() - 1
    }
}

/// Among the first reads, one before position `m` has the same path and an output.
spec fn repeats(
    messages: Seq<MessageView>,
    reads: Seq<(Seq<char>, Seq<char>)>,
    m: int,
) -> bool {
    &&& result_place(messages, reads[m].0, 0) is Some
    &&& exists|k: int|
        0 <= k < m && (#[trigger] reads[k]).1 == reads[m].1 && result_place(
            messages,
            reads[k].0,
            0,
        ) is Some
}

/// One of the first `n` reads repeats another, and its output takes in the block.
spec fn is_hit(
    messages: Seq<MessageView>,
    reads: Seq<(Seq<char>, Seq<char>)>,
    n: int,
    i: int,
    b: int,
) -> bool {
    exists|m: int|
        0 <= m < n && #[trigger] repeats(messages, reads, m) && takes_in(
            messages,
            result_place(messages, reads[m].0, 0)->0,
            i,
            b,
        )
}

/// What the first `n` reads leave.
proof fn lemma_dedup(messages: Seq<MessageView>, reads: Seq<(Seq<char>, Seq<char>)>, n: int)
    requires
        0 <= n <= reads.len(),
    ensures
        ({
            let s = dedup_all(messages, reads.take(n));
            &&& alike(messages, s.messages)
            &&& forall|p: Seq<char>| #[trigger]
                s.seen.contains(p) <==> exists|m: int|
                    0 <= m < n && (#[trigger] reads[m]).1 == p && result_place(
                        messages,
                        reads[m].0,
                        0,
                    ) is Some
            &&& forall|i: int, b: int|
                0 <= i < messages.len() && 0 <= b < messages[i].content.len()
                    ==> #[trigger] s.messages[i].content[b] == (if is_hit(
                    messages,
                    reads,
                    n,
                    i,
                    b,
                ) {
                    emptied(messages[i].content[b])
                } else {
                    messages[i].content[b]
                })
            &&& forall|i: int|
                0 <= i < messages.len() ==> (#[trigger] s.messages[i]).name == messages[i].name
            &&& s.blanked <==> exists|m: int| 0 <= m < n && #[trigger] repeats(messages, reads, m)
        }),
    decreases n,
{
    if n == 0 {
        assert(reads.take(0) =~= Seq::<(Seq<char>, Seq<char>)>::empty());
        lemma_alike_self(messages);
    } else {
        let m = n - 1;
        lemma_dedup(messages, reads, m);
        assert(reads.take(n).drop_last() =~= reads.take(m));
        assert(reads.take(n).last() == reads[m]);
        let before = dedup_all(messages, reads.take(m));
        let after = dedup_all(messages, reads.take(n));
        let read = reads[m];
        lemma_alike(messages, before.messages, read.0, 0);
        lemma_place(messages, read.0, 0);
        lemma_place(before.messages, read.0, 0);
        lemma_dedup_step(messages, reads, m, before, after);
    }
}

/// What one read more leaves.
proof fn lemma_dedup_step(
    messages: Seq<MessageView>,
    reads: Seq<(Seq<char>, Seq<char>)>,
    m: int,
    before: DedupState,
    after: DedupState,
)
    requires
        0 <= m < reads.len(),
        before == dedup_all(messages, reads.take(m)),
        after == dedup_step(before, reads[m]),
        alike(messages, before.messages),
        result_place(messages, reads[m].0, 0) == result_place(before.messages, reads[m].0, 0),
        result_place(messages, reads[m].0, 0) matches Some(at) ==> in_bounds(messages, at) && (
        at.1 matches Some(b) ==> returns_result(messages[at.0].content[b], reads[m].0)) && (at.1
            is None ==> has_text(messages[at.0])),
        forall|p: Seq<char>| #[trigger]
            before.seen.contains(p) <==> exists|k: int|
                0 <= k < m && (#[trigger] reads[k]).1 == p && result_place(
                    messages,
                    reads[k].0,
                    0,
                ) is Some,
        forall|i: int, b: int|
            0 <= i < messages.len() && 0 <= b < messages[i].content.len()
                ==> #[trigger] before.messages[i].content[b] == (if is_hit(
                messages,
                reads,
                m,
                i,
                b,
            ) {
                emptied(messages[i].content[b])
            } else {
                messages[i].content[b]
            }),
        forall|i: int|
            0 <= i < messages.len() ==> (#[trigger] before.messages[i]).name == messages[i].name,
        before.blanked <==> exists|k: int| 0 <= k < m && #[trigger] repeats(messages, reads, k),
    ensures
        alike(messages, after.messages),
        forall|p: Seq<char>| #[trigger]
            after.seen.contains(p) <==> exists|k: int|
                0 <= k < m + 1 && (#[trigger] reads[k]).1 == p && result_place(
                    messages,
                    reads[k].0,
                    0,
                ) is Some,
        forall|i: int, b: int|
            0 <= i < messages.len() && 0 <= b < messages[i].content.len()
                ==> #[trigger] after.messages[i].content[b] == (if is_hit(
                messages,
                reads,
                m + 1,
                i,
                b,
            ) {
                emptied(messages[i].content[b])
            } else {
                messages[i].content[b]
            }),
        forall|i: int|
            0 <= i < messages.len() ==> (#[trigger] after.messages[i]).name == messages[i].name,
        after.blanked <==> exists|k: int| 0 <= k < m + 1 && #[trigger] repeats(messages, reads, k),
{
    let read = reads[m];
    let place = result_place(messages, read.0, 0);
    assert(repeats(messages, reads, m) <==> place is Some && before.seen.contains(read.1));
    assert forall|i: int, b: int|
        0 <= i < messages.len() && 0 <= b < messages[i].content.len() implies (#[trigger] is_hit(
        messages,
        reads,
        m + 1,
        i,
        b,
    ) <==> is_hit(messages, reads, m, i, b) || (repeats(messages, reads, m) && takes_in(
        messages,
        place->0,
        i,
        b,
    ))) by {
        if is_hit(messages, reads, m, i, b) {
            let k = choose|k: int|
                0 <= k < m && #[trigger] repeats(messages, reads, k) && takes_in(
                    messages,
                    result_place(messages, reads[k].0, 0)->0,
                    i,
                    b,
                );
            assert(repeats(messages, reads, k));
        }
    }
    assert forall|p: Seq<char>| #[trigger] after.seen.contains(p) <==> exists|k: int|
        0 <= k < m + 1 && (#[trigger] reads[k]).1 == p && result_place(
            messages,
            reads[k].0,
            0,
        ) is Some by {
        if place is Some && !before.seen.contains(read.1) {
            assert(after.seen == before.seen.push(read.1));
            assert(after.seen[before.seen.len() as int] == read.1);
            if before.seen.contains(p) {
                let x = choose|x: int| 0 <= x < before.seen.len() && before.seen[x] == p;
                assert(after.seen[x] == p);
            }
            if after.seen.contains(p) {
                let x = choose|x: int| 0 <= x < after.seen.len() && after.seen[x] == p;
                if x < before.seen.len() {
                    assert(before.seen[x] == p);
                    assert(before.seen.contains(p));
                } else {
                    assert(reads[m].1 == p);
                }
            }
        } else {
            assert(after.seen == before.seen);
            if exists|k: int|
                0 <= k < m + 1 && (#[trigger] reads[k]).1 == p && result_place(
                    messages,
                    reads[k].0,
                    0,
                ) is Some {
                let k = choose|k: int|
                    0 <= k < m + 1 && (#[trigger] reads[k]).1 == p && result_place(
                        messages,
                        reads[k].0,
                        0,
                    ) is Some;
                if k < m {
                    assert(before.seen.contains(p));
                } else {
                    assert(before.seen.contains(read.1));
                }
            }
        }
    }
    if repeats(messages, reads, m) {
        let at = place->0;
        assert(after.messages == blank_at(before.messages, at));
        assert(before.messages[at.0].content.len() == messages[at.0].content.len());
        assert forall|i: int, b: int|
            0 <= i < messages.len() && 0 <= b < messages[i].content.len() implies #[trigger] after.messages[i].content[b]
            == (if is_hit(messages, reads, m + 1, i, b) {
            emptied(messages[i].content[b])
        } else {
            messages[i].content[b]
        }) by {
            assert(is_hit(messages, reads, m + 1, i, b) <==> is_hit(messages, reads, m, i, b)
                || takes_in(messages, at, i, b));
            let old_block = before.messages[i].content[b];
            assert(old_block == (if is_hit(messages, reads, m, i, b) {
                emptied(messages[i].content[b])
            } else {
                messages[i].content[b]
            }));
            assert(messages[i].role == before.messages[i].role);
            assert(alike_block(messages[i].content[b], before.messages[i].content[b]));
        }
        assert forall|i: int| 0 <= i < messages.len() implies {
            let x = #[trigger] messages[i];
            &&& x.role == after.messages[i].role
            &&& x.tool_call_id == after.messages[i].tool_call_id
            &&& x.content.len() == after.messages[i].content.len()
            &&& forall|c: int|
                0 <= c < x.content.len() ==> alike_block(
                    #[trigger] x.content[c],
                    after.messages[i].content[c],
                )
        } by {
            assert(messages[i].role == before.messages[i].role);
            assert forall|c: int| 0 <= c < messages[i].content.len() implies alike_block(
                #[trigger] messages[i].content[c],
                after.messages[i].content[c],
            ) by {
                assert(alike_block(messages[i].content[c], before.messages[i].content[c]));
            }
        }
        assert(repeats(messages, reads, m));
    }
}

/// Of two reads of one path by the tool whose outputs are both there, that of the older one is
/// emptied, however many other reads stand between them.
pub proof fn law_superseded_reads_are_emptied(
    messages: Seq<MessageView>,
    tool: Seq<char>,
    path: Seq<char>,
    i: int,
    b: int,
    id: Seq<char>,
    j: int,
    d: int,
    other: Seq<char>,
)
    requires
        reads_at(messages, tool, i, b, id, path),
        reads_at(messages, tool, j, d, other, path),
        i < j,
        result_place(messages, id, 0) is Some,
        result_place(messages, other, 0) is Some,
    ensures
        ({
            let at = result_place(messages, id, 0)->0;
            let after = deduplicated(messages, tool).0;
            match at.1 {
                Some(c) => after[at.0].content[c] matches BlockView::ToolResult {
                    tool_call_id,
                    output,
                } && tool_call_id == id && output.len() == 0,
                None => forall|c: int|
                    0 <= c < after[at.0].content.len() ==> (
                    #[trigger] after[at.0].content[c] matches BlockView::Text(text) ==> text.len()
                        == 0),
            }
        }),
        deduplicated(messages, tool).1,
{
    let reads = reads_from(messages, tool, 0);
    let n = reads.len() as int;
    assert(reads.take(n) =~= reads);
    lemma_dedup(messages, reads, n);
    lemma_read_stands(messages, tool, i, b, id, path);
    lemma_read_stands(messages, tool, j, d, other, path);
    lemma_read_order(messages, tool, i, b, j, d);
    let m = read_index(messages, tool, i, b);
    let k = read_index(messages, tool, j, d);
    assert(reads[k].1 == reads[m].1);
    assert(repeats(messages, reads, m));
    let at = result_place(messages, id, 0)->0;
    lemma_place(messages, id, 0);
    let after = deduplicated(messages, tool).0;
    assert(alike(messages, after));
    assert(messages[at.0].content.len() == after[at.0].content.len());
    match at.1 {
        Some(c) => {
            assert(takes_in(messages, at, at.0, c));
            assert(is_hit(messages, reads, n, at.0, c));
            assert(after[at.0].content[c] == emptied(messages[at.0].content[c]));
        },
        None => {
            assert forall|c: int| 0 <= c < after[at.0].content.len() implies (
            #[trigger] after[at.0].content[c] matches BlockView::Text(text) ==> text.len() == 0) by {
                assert(alike_block(messages[at.0].content[c], after[at.0].content[c]));
                if after[at.0].content[c] is Text {
                    assert(takes_in(messages, at, at.0, c));
                    assert(is_hit(messages, reads, n, at.0, c));
                    assert(after[at.0].content[c] == emptied(messages[at.0].content[c]));
                }
            }
        },
    }
}

/// Only outputs of superseded reads are emptied: a block that changes belongs to the output of a
/// read of a path that the tool reads again, and all of it is gone. The newest read of a path
/// keeps its output, and so does everything that is no read of the tool. That something was
/// emptied is reported exactly where a read is superseded.
pub proof fn law_only_superseded_reads_are_emptied(
    messages: Seq<MessageView>,
    tool: Seq<char>,
    i: int,
    b: int,
)
    requires
        0 <= i < messages.len(),
        0 <= b < messages[i].content.len(),
    ensures
        ({
            let after = deduplicated(messages, tool).0;
            &&& after.len() == messages.len()
            &&& after[i].role == messages[i].role
            &&& after[i].name == messages[i].name
            &&& after[i].tool_call_id == messages[i].tool_call_id
            &&& after[i].content.len() == messages[i].content.len()
            &&& after[i].content[b] != messages[i].content[b] ==> after[i].content[b] == emptied(
                messages[i].content[b],
            ) && exists|x: int, y: int, at: (int, Option<int>)|
                #[trigger] is_superseded(messages, tool, x, y, at) && takes_in(messages, at, i, b)
        }),
        deduplicated(messages, tool).1 <==> exists|x: int, y: int, at: (int, Option<int>)|
            #[trigger] is_superseded(messages, tool, x, y, at),
{
    let reads = reads_from(messages, tool, 0);
    let n = reads.len() as int;
    assert(reads.take(n) =~= reads);
    lemma_dedup(messages, reads, n);
    let after = deduplicated(messages, tool).0;
    assert(alike(messages, after));
    assert(messages[i].role == after[i].role);
    if is_hit(messages, reads, n, i, b) {
        let m = choose|m: int|
            0 <= m < n && #[trigger] repeats(messages, reads, m) && takes_in(
                messages,
                result_place(messages, reads[m].0, 0)->0,
                i,
                b,
            );
        lemma_repeats_is_superseded(messages, tool, m);
    }
    if deduplicated(messages, tool).1 {
        let m = choose|m: int| 0 <= m < n && #[trigger] repeats(messages, reads, m);
        lemma_repeats_is_superseded(messages, tool, m);
    }
    if exists|x: int, y: int, at: (int, Option<int>)|
        #[trigger] is_superseded(messages, tool, x, y, at) {
        let (x, y, at) = choose|x: int, y: int, at: (int, Option<int>)|
            #[trigger] is_superseded(messages, tool, x, y, at);
        let (id, path, j, d, other) = choose|
            id: Seq<char>,
            path: Seq<char>,
            j: int,
            d: int,
            other: Seq<char>,
        |
            {
                &&& #[trigger] reads_at(messages, tool, x, y, id, path)
                &&& #[trigger] reads_at(messages, tool, j, d, other, path)
                &&& result_place(messages, id, 0) == Some(at)
                &&& result_place(messages, other, 0) is Some
                &&& j > x || (j == x && d < y)
            };
        lemma_read_stands(messages, tool, x, y, id, path);
        lemma_read_stands(messages, tool, j, d, other, path);
        lemma_read_order(messages, tool, x, y, j, d);
        let m = read_index(messages, tool, x, y);
        let k = read_index(messages, tool, j, d);
        assert(reads[k].1 == reads[m].1);
        assert(repeats(messages, reads, m));
    }
}

/// A read that repeats another is superseded.
proof fn lemma_repeats_is_superseded(messages: Seq<MessageView>, tool: Seq<char>, m: int)
    requires
        0 <= m < reads_from(messages, tool, 0).len(),
        repeats(messages, reads_from(messages, tool, 0), m),
    ensures
        exists|x: int, y: int|
            #[trigger] is_superseded(
                messages,
                tool,
                x,
                y,
                result_place(messages, reads_from(messages, tool, 0)[m].0, 0)->0,
            ),
{
    let reads = reads_from(messages, tool, 0);
    let k = choose|k: int|
        0 <= k < m && (#[trigger] reads[k]).1 == reads[m].1 && result_place(
            messages,
            reads[k].0,
            0,
        ) is Some;
    let (x, y) = lemma_read_origin(messages, tool, 0, m);
    let (j, d) = lemma_read_origin(messages, tool, 0, k);
    if !(j > x || (j == x && d < y)) {
        if j == x && d == y {
            assert(m == k);
        } else {
            lemma_read_order(messages, tool, j, d, x, y);
        }
    }
    let at = result_place(messages, reads[m].0, 0)->0;
    assert(reads_at(messages, tool, x, y, reads[m].0, reads[m].1));
    assert(reads_at(messages, tool, j, d, reads[k].0, reads[m].1));
    assert(is_superseded(messages, tool, x, y, at));
}

} // verus!
