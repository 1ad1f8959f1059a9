//! What the guardrails are for: what is held to which schema, and what a fault is answered with.

use crate::error::PluginError;
use crate::json::{
    is_members, json_parse, json_text, lemma_member_at, lemma_members_unique, member_keys,
    object_of, pairs_map, JsonView,
};
use crate::plugins::guardrails::{
    error_value, failed, is_attempts, is_first_unready, is_ready, looks_like_object, next_attempt,
    schema_faults, schema_issues, succeeded, AttemptsView, GuardView, JsonGuardrailPlugin,
};
use crate::string_map::strictly_sorted;
use crate::text::{is_blank, is_white, text_less};
use crate::types::BlockView;
use vstd::prelude::*;

verus! {

/// The failures of a call that were counted.
pub open spec fn failures(a: AttemptsView, id: Seq<char>) -> nat {
    if a.counts.dom().contains(id) {
        a.counts[id] as nat
    } else {
        0
    }
}

/// A call with issues does not go on: an answer to it takes its place, which says what is wrong.
/// It asks for another try as long as the call has failed no more often than it may, and says
/// that there is none from then on.
pub proof fn law_faulty_calls_are_answered(
    g: GuardView,
    max_attempts: u32,
    block: BlockView,
    issues: Seq<Seq<char>>,
)
    requires
        block is ToolCall,
        issues.len() > 0,
        failures(g.attempts, block->id) < u32::MAX,
    ensures
        ({
            let (after, h) = JsonGuardrailPlugin::guarded(g, max_attempts, block, issues);
            let n = failures(g.attempts, block->id) + 1;
            let error = if n <= max_attempts {
                "schema_validation_failed"@
            } else {
                "guardrail_exhausted"@
            };
            &&& after == (BlockView::ToolResult {
                tool_call_id: block->id,
                output: json_text(error_value(error, block->name, issues)),
            })
            &&& h.last_event matches Some(event) && event.0 == block->name && event.1 == error
                && event.2 == n
            &&& failures(h.attempts, block->id) == n
        }),
{
}

/// A call without issues goes on as it is, and its failures are forgotten.
pub proof fn law_sound_calls_go_on(
    g: GuardView,
    max_attempts: u32,
    block: BlockView,
    issues: Seq<Seq<char>>,
)
    requires
        block is ToolCall,
        issues.len() == 0,
    ensures
        ({
            let (after, h) = JsonGuardrailPlugin::guarded(g, max_attempts, block, issues);
            &&& after == block
            &&& h.last_event == g.last_event
            &&& failures(h.attempts, block->id) == 0
        }),
{
}

/// A text with issues is replaced by what is wrong with it, and counts for no call; any other
/// text, and any other block, stays.
pub proof fn law_faulty_texts_are_replaced(
    g: GuardView,
    max_attempts: u32,
    block: BlockView,
    issues: Seq<Seq<char>>,
)
    requires
        !(block is ToolCall),
    ensures
        ({
            let (after, h) = JsonGuardrailPlugin::guarded(g, max_attempts, block, issues);
            &&& h == g
            &&& block is Text && issues.len() > 0 ==> after == BlockView::Text(
                json_text(error_value("schema_validation_failed"@, "response"@, issues)),
            )
            &&& !(block is Text) || issues.len() == 0 ==> after == block
        }),
{
}

/// An answer to a fault says what it is, of which tool, and every issue, in order.
pub proof fn law_answers_say_what_is_wrong(
    error: Seq<char>,
    tool: Seq<char>,
    issues: Seq<Seq<char>>,
)
    ensures
        error_value(error, tool, issues) == JsonView::Object(
            seq![
                ("error"@, JsonView::String(error)),
                (
                    "issues"@,
                    JsonView::Array(issues.map_values(|issue: Seq<char>| JsonView::String(issue))),
                ),
                ("tool"@, JsonView::String(tool)),
            ],
        ),
{
    let list = JsonView::Array(Seq::new(issues.len(), |i: int| JsonView::String(issues[i])));
    let said = JsonView::Array(issues.map_values(|issue: Seq<char>| JsonView::String(issue)));
    assert(list->Array_0 =~= said->Array_0);
    let pairs = seq![
        ("error"@, JsonView::String(error)),
        ("tool"@, JsonView::String(tool)),
        ("issues"@, list),
    ];
    let m = seq![
        ("error"@, JsonView::String(error)),
        ("issues"@, said),
        ("tool"@, JsonView::String(tool)),
    ];
    reveal_strlit("error");
    reveal_strlit("issues");
    reveal_strlit("tool");
    reveal_with_fuel(pairs_map, 4);
    assert(pairs.drop_last() =~= seq![
        ("error"@, JsonView::String(error)),
        ("tool"@, JsonView::String(tool)),
    ]);
    assert(pairs.drop_last().drop_last() =~= seq![("error"@, JsonView::String(error))]);
    assert(pairs.drop_last().drop_last().drop_last() =~= Seq::<(Seq<char>, JsonView)>::empty());
    let map = pairs_map(pairs);
    assert("error"@ != "tool"@ && "error"@ != "issues"@ && "tool"@ != "issues"@) by {
        assert("error"@.len() == 5 && "tool"@.len() == 4 && "issues"@.len() == 6);
    }
    let keys = member_keys(m);
    assert(keys =~= seq!["error"@, "issues"@, "tool"@]);
    assert(text_less("error"@, "issues"@));
    assert(text_less("issues"@, "tool"@));
    assert(text_less("error"@, "tool"@));
    assert(strictly_sorted(keys));
    assert forall|k: Seq<char>| #[trigger] keys.contains(k) <==> map.dom().contains(k) by {
        assert(keys[0] == "error"@ && keys[1] == "issues"@ && keys[2] == "tool"@);
    }
    assert(is_members(m, map));
    let chosen = choose|c: Seq<(Seq<char>, JsonView)>| is_members(c, map);
    lemma_members_unique(m, chosen, map);
    assert(object_of(pairs) == JsonView::Object(m));
}

/// A call is held to the schema of its tool, and a text that is a JSON object to that of
/// responses; where there is no such schema, and in any other block, there is nothing to hold to.
pub proof fn law_blocks_are_held_to_their_schema(
    plugin: &JsonGuardrailPlugin,
    block: BlockView,
    value: JsonView,
)
    ensures
        ({
            let schemas = plugin.schemas();
            let issues = plugin.block_issues(block);
            match block {
                BlockView::ToolCall { name, arguments, .. } => {
                    &&& schemas.dom().contains(name) ==> issues == schema_issues(
                        schemas[name],
                        arguments,
                    )
                    &&& !schemas.dom().contains(name) ==> issues.len() == 0
                },
                BlockView::Text(text) => {
                    &&& looks_like_object(text) && json_parse(text) == Some(value)
                        && schemas.dom().contains("response"@) ==> issues == schema_issues(
                        schemas["response"@],
                        value,
                    )
                    &&& !looks_like_object(text) || json_parse(text) is None
                        || !schemas.dom().contains("response"@) ==> issues.len() == 0
                },
                _ => issues.len() == 0,
            }
        }),
{
}

/// A text looks like an object where a brace is the first thing that it shows.
pub proof fn law_objects_begin_with_a_brace(blank: Seq<char>, rest: Seq<char>, s: Seq<char>)
    requires
        is_blank(blank),
    ensures
        looks_like_object(blank + seq!['{'] + rest),
        rest.len() > 0 && rest[0] != '{' && !is_white(rest[0]) ==> !looks_like_object(blank + rest),
        is_blank(s) ==> !looks_like_object(s),
{
    let text = blank + seq!['{'] + rest;
    let n = blank.len() as int;
    assert(text[n] == '{');
    assert forall|k: int| 0 <= k < n implies is_white(#[trigger] text[k]) by {
        assert(text[k] == blank[k]);
    }
    if rest.len() > 0 && rest[0] != '{' && !is_white(rest[0]) {
        let other = blank + rest;
        if looks_like_object(other) {
            let i = choose|i: int|
                0 <= i < other.len() && #[trigger] other[i] == '{' && forall|k: int|
                    0 <= k < i ==> is_white(#[trigger] other[k]);
            assert(other[n] == rest[0]);
            if i < n {
                assert(other[i] == blank[i]);
                assert(is_white(blank[i]));
            }
            if n < i {
                assert(is_white(other[n]));
            }
        }
    }
    if is_blank(s) && looks_like_object(s) {
        let i = choose|i: int|
            0 <= i < s.len() && #[trigger] s[i] == '{' && forall|k: int|
                0 <= k < i ==> is_white(#[trigger] s[k]);
        assert(is_white(s[i]));
    }
}

/// Where as many calls are counted as may be, the one that failed first is forgotten for a new
/// one; with room left, none is.
pub proof fn law_the_oldest_call_is_forgotten(a: AttemptsView, id: Seq<char>, other: Seq<char>)
    requires
        is_attempts(a),
        !a.counts.dom().contains(id),
        other != id,
    ensures
        failures(failed(a, id), id) == 1,
        a.order.len() == 4096 ==> failures(failed(a, id), a.order[0]) == 0,
        a.order.len() < 4096 || other != a.order[0] ==> failures(failed(a, id), other) == failures(
            a,
            other,
        ),
        failed(a, id).order.last() == id,
        failures(succeeded(failed(a, id), id), id) == 0,
        next_attempt(a, id) == 1,
{
    if a.order.len() == 4096 {
        assert(a.order.contains(a.order[0]));
        assert(a.counts.dom().contains(a.order[0]));
    }
}

/// Guardrails are set up exactly where every schema is sound; each is then found under its own
/// name, nothing has failed yet, and as many tries are allowed as were asked for.
pub proof fn law_every_schema_is_registered(
    members: Seq<(Seq<char>, JsonView)>,
    max_attempts: u32,
    r: Result<JsonGuardrailPlugin, PluginError>,
    i: int,
    id: Seq<char>,
)
    requires
        JsonGuardrailPlugin::is_made(members, max_attempts, r),
        strictly_sorted(member_keys(members)),
        0 <= i < members.len(),
    ensures
        r is Ok <==> forall|k: int|
            0 <= k < members.len() ==> schema_faults((#[trigger] members[k]).1) == Set::<
                Seq<char>,
            >::empty(),
        r matches Ok(plugin) ==> {
            &&& plugin.schemas().dom().contains(members[i].0)
            &&& plugin.schemas()[members[i].0] == members[i].1
            &&& plugin.max_attempts() == max_attempts
            &&& failures(plugin@.attempts, id) == 0
            &&& plugin@.last_event is None
        },
{
    lemma_member_at(members, i);
    assert(member_keys(members)[i] == members[i].0);
    if r is Ok {
        assert forall|k: int| 0 <= k < members.len() implies schema_faults(
            (#[trigger] members[k]).1,
        ) == Set::<Seq<char>>::empty() by {
            assert(is_ready(members[k].1));
        }
    } else {
        let k = choose|k: int| #[trigger] is_first_unready(members, k);
        assert(!is_ready(members[k].1));
    }
}

} // verus!
