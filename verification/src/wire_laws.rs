//! What the JSON of a request keeps apart.

use crate::json::{
    is_members, json_member, member_index, member_keys, object_of, pairs_map, JsonView, NumberView,
};
use crate::plugins::memory::graph::listing;
use crate::plugins::memory::laws::law_finite_sets_are_listed;
use crate::request::{PromptCacheBreakpoint, RequestView};
use crate::types::{BlockView, MessageRole, MessageView, ProviderView, ToolView};
use crate::wire::{
    block_value, blocks_value, breakpoint_value, count_value, directive_value, message_value,
    messages_value, provider_value, request_value, role_value, temperature_value, text_value,
    thinking_value, tool_value, tools_value,
};
use vstd::prelude::*;

verus! {

/// Whether no key stands twice.
spec fn keys_differ(pairs: Seq<(Seq<char>, JsonView)>) -> bool {
    forall|i: int, j: int|
        0 <= i < j < pairs.len() ==> (#[trigger] pairs[i]).0 != (#[trigger] pairs[j]).0
}

/// Pairs come to finitely many members.
proof fn lemma_pairs_finite(pairs: Seq<(Seq<char>, JsonView)>)
    ensures
        pairs_map(pairs).dom().finite(),
    decreases pairs.len(),
{
    if pairs.len() > 0 {
        lemma_pairs_finite(pairs.drop_last());
    }
}

/// Where no key stands twice, each pair is a member.
proof fn lemma_pair_kept(pairs: Seq<(Seq<char>, JsonView)>, i: int)
    requires
        keys_differ(pairs),
        0 <= i < pairs.len(),
    ensures
        pairs_map(pairs)[pairs[i].0] == pairs[i].1,
    decreases pairs.len(),
{
    let shorter = pairs.drop_last();
    if i < pairs.len() - 1 {
        assert forall|a: int, b: int| 0 <= a < b < shorter.len() implies (
        #[trigger] shorter[a]).0 != (#[trigger] shorter[b]).0 by {
            assert(shorter[a] == pairs[a] && shorter[b] == pairs[b]);
        }
        assert(shorter[i] == pairs[i]);
        lemma_pair_kept(shorter, i);
        assert(pairs[i].0 != pairs[pairs.len() - 1].0);
    }
}

/// The object of pairs has the members that they come to.
proof fn lemma_object_members(pairs: Seq<(Seq<char>, JsonView)>) -> (m: Seq<
    (Seq<char>, JsonView),
>)
    ensures
        object_of(pairs) == JsonView::Object(m),
        is_members(m, pairs_map(pairs)),
{
    let map = pairs_map(pairs);
    lemma_pairs_finite(pairs);
    law_finite_sets_are_listed(map.dom());
    let keys = listing(map.dom());
    let m = Seq::new(keys.len(), |i: int| (keys[i], map[keys[i]]));
    assert(member_keys(m) =~= keys);
    assert(is_members(m, map));
    choose|m: Seq<(Seq<char>, JsonView)>| is_members(m, map)
}

/// Equal objects have equal members.
proof fn lemma_objects_equal(p: Seq<(Seq<char>, JsonView)>, q: Seq<(Seq<char>, JsonView)>)
    requires
        object_of(p) == object_of(q),
    ensures
        pairs_map(p) == pairs_map(q),
{
    let m = lemma_object_members(p);
    let n = lemma_object_members(q);
    assert(m == n);
    let a = pairs_map(p);
    let b = pairs_map(q);
    assert forall|k: Seq<char>| #[trigger] a.dom().contains(k) <==> b.dom().contains(k) by {
        assert(member_keys(m).contains(k) <==> a.dom().contains(k));
        assert(member_keys(m).contains(k) <==> b.dom().contains(k));
    }
    assert forall|k: Seq<char>| #[trigger] a.dom().contains(k) implies a[k] == b[k] by {
        assert(member_keys(m).contains(k));
        let i = choose|i: int| 0 <= i < member_keys(m).len() && member_keys(m)[i] == k;
        assert(m[i].0 == k);
        assert(a[m[i].0] == m[i].1);
        assert(b[m[i].0] == m[i].1);
    }
    assert(a =~= b);
}

/// Equal objects that were given the same keys were given the same values.
proof fn lemma_fields_equal(p: Seq<(Seq<char>, JsonView)>, q: Seq<(Seq<char>, JsonView)>)
    requires
        object_of(p) == object_of(q),
        p.len() == q.len(),
        forall|i: int| 0 <= i < p.len() ==> (#[trigger] p[i]).0 == q[i].0,
        keys_differ(p),
    ensures
        forall|i: int| 0 <= i < p.len() ==> (#[trigger] p[i]).1 == q[i].1,
{
    lemma_objects_equal(p, q);
    assert forall|i: int, j: int| 0 <= i < j < q.len() implies (#[trigger] q[i]).0 != (
    #[trigger] q[j]).0 by {
        assert(p[i].0 == q[i].0 && p[j].0 == q[j].0);
    }
    assert forall|i: int| 0 <= i < p.len() implies (#[trigger] p[i]).1 == q[i].1 by {
        lemma_pair_kept(p, i);
        lemma_pair_kept(q, i);
    }
}

/// Equal objects of one member each have the same key and the same value.
proof fn lemma_tags_equal(k: Seq<char>, v: JsonView, l: Seq<char>, w: JsonView)
    requires
        object_of(seq![(k, v)]) == object_of(seq![(l, w)]),
    ensures
        k == l,
        v == w,
{
    let p = seq![(k, v)];
    let q = seq![(l, w)];
    reveal_with_fuel(pairs_map, 2);
    lemma_objects_equal(p, q);
    lemma_pair_kept(p, 0);
    lemma_pair_kept(q, 0);
    assert(pairs_map(q).dom().contains(k));
}

/// Providers with one value are one provider.
proof fn lemma_providers_equal(a: ProviderView, b: ProviderView)
    requires
        provider_value(a) == provider_value(b),
    ensures
        a == b,
{
    reveal_strlit("OpenAi");
    reveal_strlit("Anthropic");
    assert("OpenAi"@.len() != "Anthropic"@.len());
    match (a, b) {
        (ProviderView::Custom(x), ProviderView::Custom(y)) => {
            lemma_tags_equal("Custom"@, JsonView::String(x), "Custom"@, JsonView::String(y));
        },
        _ => {},
    }
}

/// Roles with one value are one role.
proof fn lemma_roles_equal(a: MessageRole, b: MessageRole)
    requires
        role_value(a) == role_value(b),
    ensures
        a == b,
{
    reveal_strlit("System");
    reveal_strlit("User");
    reveal_strlit("Assistant");
    reveal_strlit("Tool");
    assert("User"@[0] != "Tool"@[0]);
    assert("System"@.len() == 6 && "User"@.len() == 4 && "Assistant"@.len() == 9
        && "Tool"@.len() == 4);
}

/// The kind under which a block's value stands.
spec fn kind_key(b: BlockView) -> Seq<char> {
    match b {
        BlockView::Text(_) => "Text"@,
        BlockView::Thinking { .. } => "Thinking"@,
        BlockView::ImageBase64 { .. } => "ImageBase64"@,
        BlockView::ToolCall { .. } => "ToolCall"@,
        BlockView::ToolResult { .. } => "ToolResult"@,
    }
}

/// The value under a block's kind.
spec fn kind_value(b: BlockView) -> JsonView {
    match b {
        BlockView::Text(text) => JsonView::String(text),
        BlockView::Thinking { reasoning, signature } => object_of(
            seq![
                ("reasoning"@, JsonView::String(reasoning)),
                ("signature"@, text_value(signature)),
            ],
        ),
        BlockView::ImageBase64 { media_type, data } => object_of(
            seq![
                ("media_type"@, JsonView::String(media_type)),
                ("data"@, JsonView::String(data)),
            ],
        ),
        BlockView::ToolCall { id, name, arguments } => object_of(
            seq![
                ("id"@, JsonView::String(id)),
                ("name"@, JsonView::String(name)),
                ("arguments"@, arguments),
            ],
        ),
        BlockView::ToolResult { tool_call_id, output } => object_of(
            seq![
                ("tool_call_id"@, JsonView::String(tool_call_id)),
                ("output"@, JsonView::String(output)),
            ],
        ),
    }
}

/// Blocks under one kind are blocks of one kind.
proof fn lemma_kinds_equal(a: BlockView, b: BlockView)
    requires
        kind_key(a) == kind_key(b),
    ensures
        match (a, b) {
            (BlockView::Text(_), BlockView::Text(_)) => true,
            (BlockView::Thinking { .. }, BlockView::Thinking { .. }) => true,
            (BlockView::ImageBase64 { .. }, BlockView::ImageBase64 { .. }) => true,
            (BlockView::ToolCall { .. }, BlockView::ToolCall { .. }) => true,
            (BlockView::ToolResult { .. }, BlockView::ToolResult { .. }) => true,
            _ => false,
        },
{
    reveal_strlit("Text");
    reveal_strlit("Thinking");
    reveal_strlit("ImageBase64");
    reveal_strlit("ToolCall");
    reveal_strlit("ToolResult");
    assert("Thinking"@[1] != "ToolCall"@[1]);
    assert("Text"@.len() == 4 && "Thinking"@.len() == 8 && "ImageBase64"@.len() == 11
        && "ToolCall"@.len() == 8 && "ToolResult"@.len() == 10);
}

/// Optional texts with one value are one.
proof fn lemma_texts_equal(a: Option<Seq<char>>, b: Option<Seq<char>>)
    requires
        text_value(a) == text_value(b),
    ensures
        a == b,
{
}

/// Blocks with one value are one block.
proof fn lemma_blocks_equal(a: BlockView, b: BlockView)
    requires
        block_value(a) == block_value(b),
    ensures
        a == b,
{
    lemma_tags_equal(kind_key(a), kind_value(a), kind_key(b), kind_value(b));
    lemma_kinds_equal(a, b);
    match (a, b) {
        (
            BlockView::Thinking { reasoning: r, signature: s },
            BlockView::Thinking { reasoning: t, signature: u },
        ) => {
            let p = seq![("reasoning"@, JsonView::String(r)), ("signature"@, text_value(s))];
            let q = seq![("reasoning"@, JsonView::String(t)), ("signature"@, text_value(u))];
            reveal_strlit("reasoning");
            reveal_strlit("signature");
            assert("reasoning"@[0] != "signature"@[0]);
            lemma_fields_equal(p, q);
            assert(p[0].1 == q[0].1 && p[1].1 == q[1].1);
            lemma_texts_equal(s, u);
        },
        (
            BlockView::ImageBase64 { media_type: m, data: d },
            BlockView::ImageBase64 { media_type: n, data: e },
        ) => {
            let p = seq![("media_type"@, JsonView::String(m)), ("data"@, JsonView::String(d))];
            let q = seq![("media_type"@, JsonView::String(n)), ("data"@, JsonView::String(e))];
            reveal_strlit("media_type");
            reveal_strlit("data");
            assert("media_type"@.len() != "data"@.len());
            lemma_fields_equal(p, q);
            assert(p[0].1 == q[0].1 && p[1].1 == q[1].1);
        },
        (
            BlockView::ToolCall { id: i, name: n, arguments: x },
            BlockView::ToolCall { id: j, name: m, arguments: y },
        ) => {
            let p = seq![
                ("id"@, JsonView::String(i)),
                ("name"@, JsonView::String(n)),
                ("arguments"@, x),
            ];
            let q = seq![
                ("id"@, JsonView::String(j)),
                ("name"@, JsonView::String(m)),
                ("arguments"@, y),
            ];
            reveal_strlit("id");
            reveal_strlit("name");
            reveal_strlit("arguments");
            assert("id"@.len() == 2 && "name"@.len() == 4 && "arguments"@.len() == 9);
            lemma_fields_equal(p, q);
            assert(p[0].1 == q[0].1 && p[1].1 == q[1].1 && p[2].1 == q[2].1);
        },
        (
            BlockView::ToolResult { tool_call_id: i, output: o },
            BlockView::ToolResult { tool_call_id: j, output: r },
        ) => {
            let p = seq![("tool_call_id"@, JsonView::String(i)), ("output"@, JsonView::String(o))];
            let q = seq![("tool_call_id"@, JsonView::String(j)), ("output"@, JsonView::String(r))];
            reveal_strlit("tool_call_id");
            reveal_strlit("output");
            assert("tool_call_id"@.len() != "output"@.len());
            lemma_fields_equal(p, q);
            assert(p[0].1 == q[0].1 && p[1].1 == q[1].1);
        },
        _ => {},
    }
}

/// Messages with one value are one message.
proof fn lemma_messages_equal(a: MessageView, b: MessageView)
    requires
        message_value(a) == message_value(b),
    ensures
        a == b,
{
    let p = seq![
        ("role"@, role_value(a.role)),
        ("content"@, blocks_value(a.content)),
        ("name"@, text_value(a.name)),
        ("tool_call_id"@, text_value(a.tool_call_id)),
    ];
    let q = seq![
        ("role"@, role_value(b.role)),
        ("content"@, blocks_value(b.content)),
        ("name"@, text_value(b.name)),
        ("tool_call_id"@, text_value(b.tool_call_id)),
    ];
    reveal_strlit("role");
    reveal_strlit("content");
    reveal_strlit("name");
    reveal_strlit("tool_call_id");
    assert("role"@[0] != "name"@[0]);
    assert("role"@.len() == 4 && "content"@.len() == 7 && "name"@.len() == 4
        && "tool_call_id"@.len() == 12);
    lemma_fields_equal(p, q);
    assert(p[0].1 == q[0].1 && p[1].1 == q[1].1 && p[2].1 == q[2].1 && p[3].1 == q[3].1);
    lemma_roles_equal(a.role, b.role);
    lemma_texts_equal(a.name, b.name);
    lemma_texts_equal(a.tool_call_id, b.tool_call_id);
    let x = Seq::new(a.content.len(), |i: int| block_value(a.content[i]));
    let y = Seq::new(b.content.len(), |i: int| block_value(b.content[i]));
    assert(x == y);
    assert(x.len() == a.content.len() && y.len() == b.content.len());
    assert forall|i: int| 0 <= i < a.content.len() implies a.content[i] == b.content[i] by {
        assert(x[i] == y[i]);
        lemma_blocks_equal(a.content[i], b.content[i]);
    }
    assert(a.content =~= b.content);
}

/// Tools with one value are one tool.
proof fn lemma_tools_equal(a: ToolView, b: ToolView)
    requires
        tool_value(a) == tool_value(b),
    ensures
        a == b,
{
    let p = seq![
        ("name"@, JsonView::String(a.name)),
        ("description"@, JsonView::String(a.description)),
        ("input_schema"@, a.input_schema),
    ];
    let q = seq![
        ("name"@, JsonView::String(b.name)),
        ("description"@, JsonView::String(b.description)),
        ("input_schema"@, b.input_schema),
    ];
    reveal_strlit("name");
    reveal_strlit("description");
    reveal_strlit("input_schema");
    assert("name"@.len() == 4 && "description"@.len() == 11 && "input_schema"@.len() == 12);
    lemma_fields_equal(p, q);
    assert(p[0].1 == q[0].1 && p[1].1 == q[1].1 && p[2].1 == q[2].1);
}

/// Breakpoints with one value are one breakpoint.
proof fn lemma_breakpoints_equal(a: PromptCacheBreakpoint, b: PromptCacheBreakpoint)
    requires
        breakpoint_value(a) == breakpoint_value(b),
    ensures
        a == b,
{
    let p = seq![
        ("message_index"@, JsonView::Number(NumberView::PosInt(a.message_index as u64))),
        ("block_index"@, JsonView::Number(NumberView::PosInt(a.block_index as u64))),
    ];
    let q = seq![
        ("message_index"@, JsonView::Number(NumberView::PosInt(b.message_index as u64))),
        ("block_index"@, JsonView::Number(NumberView::PosInt(b.block_index as u64))),
    ];
    reveal_strlit("message_index");
    reveal_strlit("block_index");
    assert("message_index"@.len() != "block_index"@.len());
    lemma_fields_equal(p, q);
    assert(p[0].1 == q[0].1 && p[1].1 == q[1].1);
}

/// Cache directives with one value are one directive.
proof fn lemma_directives_equal(
    a: Option<Seq<PromptCacheBreakpoint>>,
    b: Option<Seq<PromptCacheBreakpoint>>,
)
    requires
        directive_value(a) == directive_value(b),
    ensures
        a == b,
{
    match (a, b) {
        (Some(s), Some(t)) => {
            let x = Seq::new(s.len(), |i: int| breakpoint_value(s[i]));
            let y = Seq::new(t.len(), |i: int| breakpoint_value(t[i]));
            let u = JsonView::Array(x);
            let v = JsonView::Array(y);
            lemma_tags_equal(
                "Ephemeral"@,
                object_of(seq![("breakpoints"@, u)]),
                "Ephemeral"@,
                object_of(seq![("breakpoints"@, v)]),
            );
            lemma_tags_equal("breakpoints"@, u, "breakpoints"@, v);
            assert(x == y);
            assert forall|i: int| 0 <= i < s.len() implies s[i] == t[i] by {
                assert(x[i] == y[i]);
                lemma_breakpoints_equal(s[i], t[i]);
            }
            assert(s =~= t);
        },
        _ => {},
    }
}

/// The members of a request's value.
spec fn request_pairs(req: RequestView, temperature: JsonView) -> Seq<(Seq<char>, JsonView)> {
    seq![
        ("model"@, JsonView::String(req.model)),
        ("provider"@, provider_value(req.provider)),
        ("messages"@, messages_value(req.messages)),
        ("temperature"@, temperature),
        ("max_tokens"@, count_value(req.max_tokens)),
        ("stream"@, JsonView::Bool(req.stream)),
        ("tools"@, tools_value(req.tools)),
        ("thinking"@, thinking_value(req.thinking)),
        ("prompt_cache"@, directive_value(req.prompt_cache)),
    ]
}

/// No key stands twice in a request's value.
proof fn lemma_request_keys(req: RequestView, temperature: JsonView)
    ensures
        keys_differ(request_pairs(req, temperature)),
{
    reveal_strlit("model");
    reveal_strlit("provider");
    reveal_strlit("messages");
    reveal_strlit("temperature");
    reveal_strlit("max_tokens");
    reveal_strlit("stream");
    reveal_strlit("tools");
    reveal_strlit("thinking");
    reveal_strlit("prompt_cache");
    assert("model"@.len() == 5 && "provider"@.len() == 8 && "messages"@.len() == 8
        && "temperature"@.len() == 11 && "max_tokens"@.len() == 10 && "stream"@.len() == 6
        && "tools"@.len() == 5 && "thinking"@.len() == 8 && "prompt_cache"@.len() == 12);
    assert("model"@[0] == 'm' && "tools"@[0] == 't');
    assert("provider"@[0] == 'p' && "messages"@[0] == 'm' && "thinking"@[0] == 't');
}

/// Requests with one value are the same request, but for temperatures whose texts are the same
/// JSON: nothing else about a request is lost on the way to JSON.
pub proof fn law_requests_are_told_apart(a: RequestView, b: RequestView)
    requires
        request_value(a) is Some,
        request_value(a) == request_value(b),
    ensures
        a.model == b.model,
        a.provider == b.provider,
        a.messages == b.messages,
        temperature_value(a.temperature) == temperature_value(b.temperature),
        a.max_tokens == b.max_tokens,
        a.stream == b.stream,
        a.tools == b.tools,
        a.thinking == b.thinking,
        a.prompt_cache == b.prompt_cache,
{
    let p = request_pairs(a, temperature_value(a.temperature).unwrap());
    let q = request_pairs(b, temperature_value(b.temperature).unwrap());
    lemma_request_keys(a, temperature_value(a.temperature).unwrap());
    lemma_fields_equal(p, q);
    assert(p[0].1 == q[0].1 && p[1].1 == q[1].1 && p[2].1 == q[2].1 && p[3].1 == q[3].1);
    assert(p[4].1 == q[4].1 && p[5].1 == q[5].1 && p[6].1 == q[6].1 && p[7].1 == q[7].1);
    assert(p[8].1 == q[8].1);
    lemma_providers_equal(a.provider, b.provider);
    lemma_directives_equal(a.prompt_cache, b.prompt_cache);
    let x = Seq::new(a.messages.len(), |i: int| message_value(a.messages[i]));
    let y = Seq::new(b.messages.len(), |i: int| message_value(b.messages[i]));
    assert(x == y);
    assert(x.len() == a.messages.len() && y.len() == b.messages.len());
    assert forall|i: int| 0 <= i < a.messages.len() implies a.messages[i] == b.messages[i] by {
        assert(x[i] == y[i]);
        lemma_messages_equal(a.messages[i], b.messages[i]);
    }
    assert(a.messages =~= b.messages);
    let u = Seq::new(a.tools.len(), |i: int| tool_value(a.tools[i]));
    let v = Seq::new(b.tools.len(), |i: int| tool_value(b.tools[i]));
    assert(u == v);
    assert(u.len() == a.tools.len() && v.len() == b.tools.len());
    assert forall|i: int| 0 <= i < a.tools.len() implies a.tools[i] == b.tools[i] by {
        assert(u[i] == v[i]);
        lemma_tools_equal(a.tools[i], b.tools[i]);
    }
    assert(a.tools =~= b.tools);
    match (a.thinking, b.thinking) {
        (Some(c), Some(d)) => {
            lemma_tags_equal(
                "budget_tokens"@,
                count_value(c.budget_tokens),
                "budget_tokens"@,
                count_value(d.budget_tokens),
            );
        },
        _ => {},
    }
}

/// The members of an object, looked up.
proof fn lemma_member_of(pairs: Seq<(Seq<char>, JsonView)>, key: Seq<char>)
    ensures
        json_member(object_of(pairs), key) == (if pairs_map(pairs).dom().contains(key) {
            Some(pairs_map(pairs)[key])
        } else {
            None
        }),
{
    let map = pairs_map(pairs);
    let m = lemma_object_members(pairs);
    assert(member_keys(m).contains(key) <==> map.dom().contains(key));
    if map.dom().contains(key) {
        let i = choose|i: int| 0 <= i < member_keys(m).len() && member_keys(m)[i] == key;
        assert(m[i].0 == key);
        let found = member_index(m, key);
        assert(0 <= found < m.len() && m[found].0 == key);
        assert(map[m[found].0] == m[found].1);
    } else if exists|i: int| 0 <= i < m.len() && (#[trigger] m[i]).0 == key {
        let i = choose|i: int| 0 <= i < m.len() && (#[trigger] m[i]).0 == key;
        assert(member_keys(m)[i] == key);
    }
}

/// An object that is made of pairs holds under a key what was put there last, and under any other
/// key what it would hold without that pair.
pub proof fn law_objects_hold_what_was_put_last(
    pairs: Seq<(Seq<char>, JsonView)>,
    key: Seq<char>,
    value: JsonView,
    other: Seq<char>,
)
    ensures
        json_member(object_of(pairs.push((key, value))), key) == Some(value),
        other != key ==> json_member(object_of(pairs.push((key, value))), other) == json_member(
            object_of(pairs),
            other,
        ),
        json_member(object_of(Seq::empty()), other) is None,
{
    let more = pairs.push((key, value));
    assert(more.drop_last() =~= pairs);
    lemma_member_of(more, key);
    lemma_member_of(more, other);
    lemma_member_of(pairs, other);
    lemma_member_of(Seq::empty(), other);
}

/// A pair is found under its key, where no key stands twice.
proof fn lemma_field(pairs: Seq<(Seq<char>, JsonView)>, i: int)
    requires
        keys_differ(pairs),
        0 <= i < pairs.len(),
    ensures
        json_member(object_of(pairs), pairs[i].0) == Some(pairs[i].1),
{
    lemma_member_of(pairs, pairs[i].0);
    lemma_pair_kept(pairs, i);
    lemma_pair_there(pairs, i);
}

/// The key of a pair is one of the keys.
proof fn lemma_pair_there(pairs: Seq<(Seq<char>, JsonView)>, i: int)
    requires
        0 <= i < pairs.len(),
    ensures
        pairs_map(pairs).dom().contains(pairs[i].0),
    decreases pairs.len(),
{
    if i < pairs.len() - 1 {
        lemma_pair_there(pairs.drop_last(), i);
    }
}

/// The JSON of a request carries each of its fields under its own name.
pub proof fn law_requests_carry_their_fields(req: RequestView, v: JsonView)
    requires
        request_value(req) == Some(v),
    ensures
        json_member(v, "model"@) == Some(JsonView::String(req.model)),
        json_member(v, "provider"@) == Some(provider_value(req.provider)),
        json_member(v, "messages"@) == Some(messages_value(req.messages)),
        json_member(v, "temperature"@) == temperature_value(req.temperature),
        json_member(v, "max_tokens"@) == Some(count_value(req.max_tokens)),
        json_member(v, "stream"@) == Some(JsonView::Bool(req.stream)),
        json_member(v, "tools"@) == Some(tools_value(req.tools)),
        json_member(v, "thinking"@) == Some(thinking_value(req.thinking)),
        json_member(v, "prompt_cache"@) == Some(directive_value(req.prompt_cache)),
{
    let temperature = temperature_value(req.temperature)->0;
    lemma_request_keys(req, temperature);
    let pairs = seq![
        ("model"@, JsonView::String(req.model)),
        ("provider"@, provider_value(req.provider)),
        ("messages"@, messages_value(req.messages)),
        ("temperature"@, temperature),
        ("max_tokens"@, count_value(req.max_tokens)),
        ("stream"@, JsonView::Bool(req.stream)),
        ("tools"@, tools_value(req.tools)),
        ("thinking"@, thinking_value(req.thinking)),
        ("prompt_cache"@, directive_value(req.prompt_cache)),
    ];
    assert(keys_differ(pairs));
    assert forall|i: int| 0 <= i < pairs.len() implies json_member(
        object_of(pairs),
        (#[trigger] pairs[i]).0,
    ) == Some(pairs[i].1) by {
        lemma_field(pairs, i);
    }
    assert(pairs[0].0 == "model"@ && pairs[1].0 == "provider"@ && pairs[2].0 == "messages"@
        && pairs[3].0 == "temperature"@ && pairs[4].0 == "max_tokens"@ && pairs[5].0 == "stream"@
        && pairs[6].0 == "tools"@ && pairs[7].0 == "thinking"@ && pairs[8].0 == "prompt_cache"@);
}

/// The JSON of a message carries each of its fields under its own name, and its blocks in order,
/// each under the name of its kind.
pub proof fn law_messages_carry_their_fields(m: MessageView, i: int)
    requires
        0 <= i < m.content.len(),
    ensures
        ({
            let v = message_value(m);
            let content = json_member(v, "content"@);
            &&& json_member(v, "role"@) == Some(
                JsonView::String(
                    match m.role {
                        MessageRole::System => "System"@,
                        MessageRole::User => "User"@,
                        MessageRole::Assistant => "Assistant"@,
                        MessageRole::Tool => "Tool"@,
                    },
                ),
            )
            &&& json_member(v, "name"@) == Some(text_value(m.name))
            &&& json_member(v, "tool_call_id"@) == Some(text_value(m.tool_call_id))
            &&& content matches Some(JsonView::Array(blocks)) && blocks.len() == m.content.len()
                && match m.content[i] {
                BlockView::Text(text) => json_member(blocks[i], "Text"@) == Some(
                    JsonView::String(text),
                ),
                BlockView::Thinking { .. } => json_member(blocks[i], "Thinking"@) is Some,
                BlockView::ImageBase64 { .. } => json_member(blocks[i], "ImageBase64"@) is Some,
                BlockView::ToolCall { .. } => json_member(blocks[i], "ToolCall"@) is Some,
                BlockView::ToolResult { .. } => json_member(blocks[i], "ToolResult"@) is Some,
            }
        }),
{
    let pairs = seq![
        ("role"@, role_value(m.role)),
        ("content"@, blocks_value(m.content)),
        ("name"@, text_value(m.name)),
        ("tool_call_id"@, text_value(m.tool_call_id)),
    ];
    reveal_strlit("role");
    reveal_strlit("content");
    reveal_strlit("name");
    reveal_strlit("tool_call_id");
    assert("role"@.len() == 4 && "content"@.len() == 7 && "name"@.len() == 4
        && "tool_call_id"@.len() == 12 && "role"@[0] != "name"@[0]);
    assert(keys_differ(pairs));
    lemma_field(pairs, 0);
    lemma_field(pairs, 1);
    lemma_field(pairs, 2);
    lemma_field(pairs, 3);
    assert(pairs[0].0 == "role"@ && pairs[1].0 == "content"@ && pairs[2].0 == "name"@
        && pairs[3].0 == "tool_call_id"@);
    let one = seq![(kind_key(m.content[i]), kind_value(m.content[i]))];
    assert(keys_differ(one));
    lemma_field(one, 0);
    assert(block_value(m.content[i]) == object_of(one));
}

} // verus!
