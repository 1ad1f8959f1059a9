//! What an approver is asked about, and what follows from a ruling.

use crate::json::{json_text, JsonView};
use crate::plugins::hitl::{
    action_of, after_ruling, api_words, file_words, has_any, has_word, is_high,
    law_risk_has_an_action, lower_code, reviewed, shell_words, verb_words, word_at, AuditView,
    Ruling,
};
use crate::types::BlockView;
use vstd::prelude::*;

verus! {

/// Two texts of one length agree letter by letter, where a capital of the first counts as the
/// small letter.
pub open spec fn spells(part: Seq<char>, word: Seq<char>) -> bool {
    &&& part.len() == word.len()
    &&& forall|k: int|
        0 <= k < word.len() ==> if 'A' <= part[k] && part[k] <= 'Z' {
            part[k] as u32 + 32 == (#[trigger] word[k]) as u32
        } else {
            part[k] as u32 == word[k] as u32
        }
}

/// A word stands somewhere in a name, in any ASCII case.
pub open spec fn names(name: Seq<char>, word: Seq<char>) -> bool {
    exists|i: int|
        0 <= i && i + word.len() <= name.len() && spells(
            #[trigger] name.subrange(i, i + word.len()),
            word,
        )
}

/// To stand in a name is to be found in it.
proof fn lemma_names(name: Seq<char>, word: Seq<char>)
    ensures
        names(name, word) == has_word(name, word),
{
    if names(name, word) {
        let i = choose|i: int|
            0 <= i && i + word.len() <= name.len() && spells(
                #[trigger] name.subrange(i, i + word.len()),
                word,
            );
        assert forall|k: int| 0 <= k < word.len() implies lower_code(
            name[i + k],
        ) == (#[trigger] word[k]) as u32 by {
            assert(name.subrange(i, i + word.len())[k] == name[i + k]);
        }
        assert(word_at(name, word, i));
    }
    if has_word(name, word) {
        let i = choose|i: int| #[trigger] word_at(name, word, i);
        let part = name.subrange(i, i + word.len());
        assert forall|k: int| 0 <= k < word.len() implies if 'A' <= part[k] && part[k] <= 'Z' {
            part[k] as u32 + 32 == (#[trigger] word[k]) as u32
        } else {
            part[k] as u32 == word[k] as u32
        } by {
            assert(part[k] == name[i + k]);
            assert(lower_code(name[i + k]) == word[k] as u32);
        }
        assert(spells(name.subrange(i, i + word.len()), word));
    }
}

/// A name holds one of the words for shells.
pub open spec fn names_a_shell(name: Seq<char>) -> bool {
    names(name, "shell"@)
        || names(name, "exec"@)
        || names(name, "bash"@)
        || names(name, "run_command"@)
        || names(name, "terminal"@)
}

/// A name holds one of the words for files.
pub open spec fn names_a_file(name: Seq<char>) -> bool {
    names(name, "write"@)
        || names(name, "edit"@)
        || names(name, "delete"@)
        || names(name, "remove"@)
        || names(name, "rm_"@)
        || names(name, "mv_"@)
        || names(name, "move"@)
        || names(name, "create_file"@)
}

/// A name holds one of the words for a call to elsewhere.
pub open spec fn names_a_call(name: Seq<char>) -> bool {
    names(name, "http_post"@)
        || names(name, "http_put"@)
        || names(name, "http_delete"@)
        || names(name, "api_write"@)
}

/// A name holds one of the bare verbs.
pub open spec fn names_a_verb(name: Seq<char>) -> bool {
    names(name, "post_"@)
        || names(name, "put_"@)
        || names(name, "delete_"@)
}

/// The words for shells are those of the list.
proof fn lemma_names_a_shell(name: Seq<char>)
    ensures
        has_any(name, shell_words()) == names_a_shell(name),
{
    lemma_names(name, "shell"@);
    lemma_names(name, "exec"@);
    lemma_names(name, "bash"@);
    lemma_names(name, "run_command"@);
    lemma_names(name, "terminal"@);
    assert(shell_words()[0] == "shell"@);
    assert(shell_words()[1] == "exec"@);
    assert(shell_words()[2] == "bash"@);
    assert(shell_words()[3] == "run_command"@);
    assert(shell_words()[4] == "terminal"@);
    if has_any(name, shell_words()) {
        let w = choose|w: int| 0 <= w < shell_words().len() && has_word(name, #[trigger] shell_words()[w]);
        assert(w == 0 || w == 1 || w == 2 || w == 3 || w == 4);
    }
}

/// The words for files are those of the list.
proof fn lemma_names_a_file(name: Seq<char>)
    ensures
        has_any(name, file_words()) == names_a_file(name),
{
    lemma_names(name, "write"@);
    lemma_names(name, "edit"@);
    lemma_names(name, "delete"@);
    lemma_names(name, "remove"@);
    lemma_names(name, "rm_"@);
    lemma_names(name, "mv_"@);
    lemma_names(name, "move"@);
    lemma_names(name, "create_file"@);
    assert(file_words()[0] == "write"@);
    assert(file_words()[1] == "edit"@);
    assert(file_words()[2] == "delete"@);
    assert(file_words()[3] == "remove"@);
    assert(file_words()[4] == "rm_"@);
    assert(file_words()[5] == "mv_"@);
    assert(file_words()[6] == "move"@);
    assert(file_words()[7] == "create_file"@);
    if has_any(name, file_words()) {
        let w = choose|w: int| 0 <= w < file_words().len() && has_word(name, #[trigger] file_words()[w]);
        assert(w == 0 || w == 1 || w == 2 || w == 3 || w == 4 || w == 5 || w == 6 || w == 7);
    }
}

/// The words for calls to elsewhere are those of the list.
proof fn lemma_names_a_call(name: Seq<char>)
    ensures
        has_any(name, api_words()) == names_a_call(name),
{
    lemma_names(name, "http_post"@);
    lemma_names(name, "http_put"@);
    lemma_names(name, "http_delete"@);
    lemma_names(name, "api_write"@);
    assert(api_words()[0] == "http_post"@);
    assert(api_words()[1] == "http_put"@);
    assert(api_words()[2] == "http_delete"@);
    assert(api_words()[3] == "api_write"@);
    if has_any(name, api_words()) {
        let w = choose|w: int| 0 <= w < api_words().len() && has_word(name, #[trigger] api_words()[w]);
        assert(w == 0 || w == 1 || w == 2 || w == 3);
    }
}

/// The words for verbs are those of the list.
proof fn lemma_names_a_verb(name: Seq<char>)
    ensures
        has_any(name, verb_words()) == names_a_verb(name),
{
    lemma_names(name, "post_"@);
    lemma_names(name, "put_"@);
    lemma_names(name, "delete_"@);
    assert(verb_words()[0] == "post_"@);
    assert(verb_words()[1] == "put_"@);
    assert(verb_words()[2] == "delete_"@);
    if has_any(name, verb_words()) {
        let w = choose|w: int| 0 <= w < verb_words().len() && has_word(name, #[trigger] verb_words()[w]);
        assert(w == 0 || w == 1 || w == 2);
    }
}

/// A tool is risky exactly where its name holds one of the documented words, in any ASCII case.
pub proof fn law_documented_words_are_risky(name: Seq<char>)
    ensures
        names(name, "shell"@) ==> is_high(name),
        names(name, "exec"@) ==> is_high(name),
        names(name, "bash"@) ==> is_high(name),
        names(name, "run_command"@) ==> is_high(name),
        names(name, "terminal"@) ==> is_high(name),
        names(name, "write"@) ==> is_high(name),
        names(name, "edit"@) ==> is_high(name),
        names(name, "delete"@) ==> is_high(name),
        names(name, "remove"@) ==> is_high(name),
        names(name, "rm_"@) ==> is_high(name),
        names(name, "mv_"@) ==> is_high(name),
        names(name, "move"@) ==> is_high(name),
        names(name, "create_file"@) ==> is_high(name),
        names(name, "http_post"@) ==> is_high(name),
        names(name, "http_put"@) ==> is_high(name),
        names(name, "http_delete"@) ==> is_high(name),
        names(name, "api_write"@) ==> is_high(name),
        names(name, "post_"@) ==> is_high(name),
        names(name, "put_"@) ==> is_high(name),
        names(name, "delete_"@) ==> is_high(name),
        is_high(name) ==> names_a_shell(name) || names_a_file(name) || names_a_call(name)
            || names_a_verb(name),
{
    lemma_names_a_shell(name);
    lemma_names_a_file(name);
    lemma_names_a_call(name);
    lemma_names_a_verb(name);
    law_risk_has_an_action(name);
}

/// What a tool may do goes by the words in its name: those for shells first, then those for a
/// call to elsewhere, those for files, and the bare verbs. Without any there is nothing to fear.
pub proof fn law_words_decide_the_action(name: Seq<char>)
    ensures
        names_a_shell(name) ==> action_of(name) == Some("shell_exec"@),
        !names_a_shell(name) && names_a_call(name) ==> action_of(name) == Some(
            "external_api_write"@,
        ),
        !names_a_shell(name) && !names_a_call(name) && names_a_file(name) ==> action_of(name)
            == Some("file_write"@),
        !names_a_shell(name) && !names_a_call(name) && !names_a_file(name) && names_a_verb(name)
            ==> action_of(name) == Some("external_api_write"@),
        !names_a_shell(name) && !names_a_call(name) && !names_a_file(name) && !names_a_verb(name)
            ==> action_of(name) is None,
{
    lemma_names_a_shell(name);
    lemma_names_a_file(name);
    lemma_names_a_call(name);
    lemma_names_a_verb(name);
}

/// Every call of a tool with a documented word in its name is put before the approver, with its
/// id, its action, and the tool's name and arguments; of the arguments at most two hundred
/// characters are shown. No other block is.
pub proof fn law_risky_calls_are_put_before_the_approver(
    id: Seq<char>,
    name: Seq<char>,
    arguments: JsonView,
    other: BlockView,
)
    requires
        !(other is ToolCall),
    ensures
        ({
            let asked = reviewed(BlockView::ToolCall { id, name, arguments });
            let risky = names_a_shell(name) || names_a_file(name) || names_a_call(name)
                || names_a_verb(name);
            &&& risky <==> asked is Some
            &&& asked matches Some(req) ==> {
                &&& req.tool_call_id == id
                &&& action_of(name) == Some(req.action)
                &&& json_text(arguments).len() <= 200 ==> req.detail == name + " "@ + json_text(
                    arguments,
                )
                &&& json_text(arguments).len() > 200 ==> req.detail == name + " "@ + (
                json_text(arguments).take(200) + "\u{2026}"@)
            }
        }),
        reviewed(other) is None,
{
    law_words_decide_the_action(name);
}

/// Every ruling is recorded behind those before it, which stay as they are: what kind of damage
/// was asked about, who ruled, how, and when.
pub proof fn law_rulings_are_recorded(
    log: Seq<AuditView>,
    limit: nat,
    block: BlockView,
    r: Ruling,
)
    requires
        log.len() < limit,
    ensures
        ({
            let (after, _, recorded) = after_ruling(log, limit, block, r);
            &&& recorded
            &&& after.len() == log.len() + 1
            &&& forall|i: int| 0 <= i < log.len() ==> after[i] == log[i]
            &&& after.last().action == r.request.action
            &&& after.last().approver == r.approver
            &&& after.last().timestamp_ms == r.now_ms
            &&& r.decision is Approved ==> after.last().status == "approved"@
            &&& r.decision is Denied ==> after.last().status == "denied"@
        }),
{
}

/// An approved call goes on as it is, and a denied one is answered in its place, under its id. A
/// ruling that the record has no room for lets nothing through and changes nothing.
pub proof fn law_denied_calls_do_not_run(
    log: Seq<AuditView>,
    limit: nat,
    block: BlockView,
    r: Ruling,
)
    ensures
        ({
            let (after, out, recorded) = after_ruling(log, limit, block, r);
            &&& recorded <==> log.len() < limit
            &&& !recorded ==> after == log && out == block
            &&& recorded && r.decision is Approved ==> out == block
            &&& recorded && r.decision is Denied ==> out == (BlockView::ToolResult {
                tool_call_id: r.request.tool_call_id,
                output: "denied by approver"@,
            })
        }),
{
}

} // verus!
