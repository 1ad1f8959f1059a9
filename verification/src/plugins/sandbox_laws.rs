//! What the sandbox is for: which calls it runs, with what, and what a guest may do.

use crate::error::{error_text, PluginError};
use crate::json::{json_member, JsonView};
use crate::plugins::sandbox::{
    answer_text, base64_bytes, fault_text, input_place, is_success, lossy_text, output_after,
    remembered, routed, write_refusal, CallRefusal, GuestFault, JobView, SandboxResult,
};
use crate::types::BlockView;
use vstd::prelude::*;
use vstd::utf8::encode_utf8;

verus! {

/// A call of `run_code` or `sandbox_exec` is run with the module that it carries in base64 and,
/// where it carries one, with its input; it is refused exactly where either is something else.
/// No other block is run.
pub proof fn law_calls_are_run_with_what_they_carry(block: BlockView, job: JobView)
    ensures
        routed(block) == Ok::<Option<JobView>, CallRefusal>(Some(job)) <==> {
            &&& block is ToolCall
            &&& block->name == "run_code"@ || block->name == "sandbox_exec"@
            &&& job.tool_call_id == block->id
            &&& exists|module: Seq<char>|
                #![trigger base64_bytes(module)]
                json_member(block->arguments, "wasm"@) == Some(JsonView::String(module))
                    && base64_bytes(module) == Ok::<Seq<u8>, Seq<char>>(job.wasm)
            &&& match json_member(block->arguments, "input"@) {
                None => job.input == Seq::<u8>::empty(),
                Some(JsonView::String(text)) => job.input == encode_utf8(text),
                _ => false,
            }
        },
        routed(block) matches Ok(None) <==> !(block matches BlockView::ToolCall { name, .. } && (name
            == "run_code"@ || name == "sandbox_exec"@)),
{
    if let BlockView::ToolCall { arguments, .. } = block {
        if let Some(JsonView::String(text)) = json_member(arguments, "wasm"@) {
            assert(base64_bytes(text) is Ok || base64_bytes(text) is Err);
        }
    }
}

/// An input lies at a fixed place of the guest's memory, whole; one that does not fit there has
/// none, and an empty one needs none.
pub proof fn law_inputs_lie_in_memory(len: nat, capacity: Option<nat>)
    ensures
        input_place(len, capacity) matches Ok(Some(place)) ==> {
            &&& place.0 == 1024
            &&& place.1 - place.0 == len
            &&& len > 0
            &&& capacity matches Some(c) && place.1 <= c
        },
        len == 0 <==> input_place(len, capacity) matches Ok(None),
        input_place(len, capacity) is Err <==> len > 0 && (capacity matches Some(c) ==> 1024 + len
            > c),
{
}

/// A guest may write exactly what lies in its memory, and no more than eight mebibytes in all.
/// What it writes is added behind what it wrote before, and a refusal leaves that as it was.
pub proof fn law_guests_write_from_their_memory(
    stdout: Seq<u8>,
    memory: Seq<u8>,
    ptr: i32,
    len: i32,
)
    requires
        memory.len() <= usize::MAX,
    ensures
        ({
            let may = 0 <= ptr && 0 <= len && ptr + len <= memory.len() && stdout.len() + len
                <= 8_388_608;
            let after = output_after(stdout, memory, ptr, len);
            &&& write_refusal(memory.len(), stdout.len(), ptr, len) is None <==> may
            &&& !may ==> after == stdout
            &&& may ==> after.len() == stdout.len() + len && after.take(stdout.len() as int)
                == stdout && after.skip(stdout.len() as int) == memory.subrange(
                ptr as int,
                ptr + len,
            )
        }),
{
    if 0 <= ptr && 0 <= len && ptr + len <= memory.len() && stdout.len() + len <= 8_388_608 {
        let after = output_after(stdout, memory, ptr, len);
        assert(after.take(stdout.len() as int) =~= stdout);
        assert(after.skip(stdout.len() as int) =~= memory.subrange(ptr as int, ptr + len));
    }
}

/// Only a run that ends with status zero succeeds, and only such a run is remembered.
pub proof fn law_only_successes_are_remembered(
    before: Option<(u64, usize)>,
    status: Result<i32, GuestFault>,
    ms: u64,
    bytes: usize,
)
    ensures
        is_success(status) <==> (status matches Ok(code) && code == 0),
        status is Err ==> remembered(before, status, ms, bytes) == before,
        (status matches Ok(code) && code != 0) ==> remembered(before, status, ms, bytes) == before,
        (status matches Ok(code) && code == 0) ==> remembered(before, status, ms, bytes) == Some(
            (ms, bytes),
        ),
{
}

/// A guest that ran out of instructions is told from one that ran out of time, and both from any
/// other fault, whose own words are kept.
pub proof fn law_faults_are_told_apart(text: String)
    ensures
        fault_text(GuestFault::OutOfFuel) == "fuel exhausted: instruction budget exceeded"@,
        fault_text(GuestFault::Interrupt) == "epoch deadline reached: execution timed out"@,
        fault_text(GuestFault::Trap(text)) == "wasm trap: "@ + text@,
        fault_text(GuestFault::Other(text)) == "sandbox execution failed: "@ + text@,
{
}

/// A call is answered with what the guest wrote, or with the words of the error.
pub proof fn law_answers_are_what_was_written(result: SandboxResult, e: PluginError)
    ensures
        answer_text(Ok(result)) == lossy_text(result.stdout@),
        answer_text(Err(e)) == error_text(e),
{
}

} // verus!
