//! What a model is told of a tool's result, and which calls go to a server.

use crate::json::{json_text, JsonView};
use crate::plugins::mcp::{
    answered, kind_of, result_text, routed, tools_by_name, McpToolView, ToolContent, ToolResult,
};
use crate::text::decimal;
use crate::types::BlockView;
use vstd::prelude::*;

verus! {

/// A result that is an error says so: its text is that of the same result without the error,
/// after `tool error: `. Where it is not said to be an error, nothing is put first.
pub proof fn law_errors_say_so(failed: ToolResult, same: ToolResult, fine: ToolResult)
    requires
        failed.is_error == Some(true),
        same.is_error is None,
        fine.is_error == Some(false),
        failed.content@ == same.content@,
        fine.content@ == same.content@,
        failed.structured_content == same.structured_content,
        fine.structured_content == same.structured_content,
    ensures
        result_text(failed) == "tool error: "@ + result_text(same),
        result_text(fine) == result_text(same),
{
}

/// The pieces of a result stand one to a line, in order: a result with a piece more ends in a new
/// line and the text of that piece.
pub proof fn law_pieces_stand_line_by_line(
    whole: ToolResult,
    start: ToolResult,
    end: ToolResult,
    piece: ToolContent,
)
    requires
        start.content@.len() > 0,
        whole.content@ == start.content@.push(piece),
        end.content@ == seq![piece],
        whole.is_error is None,
        start.is_error is None,
        end.is_error is None,
    ensures
        result_text(whole) == result_text(start) + "\n"@ + result_text(end),
{
    assert(whole.content@.drop_last() =~= start.content@);
    assert(whole.content@.last() == piece);
}

/// A text stands as it is, and every other piece as a short note of what it is.
pub proof fn law_a_piece_stands_for_itself(result: ToolResult, piece: ToolContent)
    requires
        result.content@ == seq![piece],
        result.is_error is None,
    ensures
        match piece {
            ToolContent::Text(text) => result_text(result) == text@,
            ToolContent::Image { mime_type, base64_len } => result_text(result) == "[image: "@
                + mime_type@ + " ("@ + decimal(base64_len as nat) + " base64 chars)]"@,
            ToolContent::Audio { mime_type, base64_len } => result_text(result) == "[audio: "@
                + mime_type@ + " ("@ + decimal(base64_len as nat) + " base64 chars)]"@,
            ToolContent::Resource => result_text(result) == "[resource content]"@,
            ToolContent::ResourceLink => result_text(result) == "[resource link]"@,
            ToolContent::Other => result_text(result) == "[content block]"@,
        },
{
}

/// A value counts only where there are no pieces, and then as its JSON text; without either there
/// is nothing to tell.
pub proof fn law_values_count_without_pieces(result: ToolResult, other: ToolResult)
    requires
        result.is_error is None,
        other.is_error is None,
        other.content@ == result.content@,
    ensures
        result.content@.len() > 0 ==> result_text(result) == result_text(other),
        result.content@.len() == 0 ==> match result.structured_content {
            Some(value) => result_text(result) == json_text(value@),
            None => result_text(result).len() == 0,
        },
{
}

/// Only tools that the server lists are known, and only their calls go to it: each with its own
/// id, name and arguments.
pub proof fn law_only_listed_tools_are_called(
    tools: Seq<McpToolView>,
    id: Seq<char>,
    name: Seq<char>,
    arguments: JsonView,
    other: BlockView,
)
    requires
        !(other is ToolCall),
    ensures
        ({
            let sent = routed(tools_by_name(tools), BlockView::ToolCall { id, name, arguments });
            let listed = exists|i: int| 0 <= i < tools.len() && (#[trigger] tools[i]).name == name;
            &&& listed ==> sent == Some((id, name, arguments))
            &&& !listed ==> sent is None
        }),
        routed(tools_by_name(tools), other) is None,
{
    lemma_known_is_listed(tools, name);
}

/// The names in a registry are those of the list.
proof fn lemma_known_is_listed(tools: Seq<McpToolView>, name: Seq<char>)
    ensures
        tools_by_name(tools).dom().contains(name) <==> exists|i: int|
            0 <= i < tools.len() && (#[trigger] tools[i]).name == name,
    decreases tools.len(),
{
    if tools.len() > 0 {
        let rest = tools.drop_last();
        lemma_known_is_listed(rest, name);
        if exists|i: int| 0 <= i < rest.len() && (#[trigger] rest[i]).name == name {
            let i = choose|i: int| 0 <= i < rest.len() && (#[trigger] rest[i]).name == name;
            assert(tools[i].name == name);
        }
        if exists|i: int| 0 <= i < tools.len() && (#[trigger] tools[i]).name == name {
            let i = choose|i: int| 0 <= i < tools.len() && (#[trigger] tools[i]).name == name;
            if i < rest.len() {
                assert(rest[i].name == name);
            } else {
                assert(tools.last().name == name);
            }
        }
        if tools.last().name == name {
            assert(tools[tools.len() - 1].name == name);
        }
    }
}

/// A call is answered under its own id, with what came of it and nothing else.
pub proof fn law_answers_keep_the_id(id: Seq<char>, output: Seq<char>)
    ensures
        answered(id, output) == (BlockView::ToolResult { tool_call_id: id, output }),
{
}

/// Each kind of value has a name of its own.
pub proof fn law_kinds_have_names(value: JsonView)
    ensures
        value is Null ==> kind_of(value) == "null"@,
        value is Bool ==> kind_of(value) == "boolean"@,
        value is Number ==> kind_of(value) == "number"@,
        value is String ==> kind_of(value) == "string"@,
        value is Array ==> kind_of(value) == "array"@,
        value is Object ==> kind_of(value) == "object"@,
{
}

} // verus!
