//! Running WebAssembly that a model wrote.
//!
//! A call of `run_code` or `sandbox_exec` carries a module and an input. What is to run is
//! decided by [`SandboxPlugin::route`]; who calls it runs the module, asks
//! [`place_input`] where the input goes and [`append_output`] what the guest may write, and
//! hands the end of the run to [`SandboxPlugin::conclude`] and the result to
//! [`SandboxPlugin::deliver`].

use crate::error::{error_text, PluginError};
use crate::json::{json_member, lemma_json_view, Json, JsonView};
use crate::text::{decimal, decimal_text, signed_decimal, signed_decimal_text, str_eq};
use crate::types::{BlockView, MessageContentBlock};
use vstd::prelude::*;
use vstd::string::*;
use vstd::utf8::{decode_utf8, encode_utf8, valid_utf8};

verus! {

/// The plugin's name.
pub const NAME: &'static str = "wasm-sandbox";

/// Where the input stands in the guest's memory.
pub const INPUT_PTR: usize = 1024;

/// How much a guest may write.
pub const MAX_OUTPUT_BYTES: usize = 8_388_608;

/// The bounds of a run.
#[derive(Debug, Clone, Copy, PartialEq, Eq, Structural)]
pub struct SandboxConfig {
    /// How many bytes of memory the guest may have.
    pub max_memory_bytes: usize,
    /// How many instructions it may take.
    pub max_instructions: u64,
    /// How many milliseconds it may take.
    pub timeout_ms: u64,
}

impl Default for SandboxConfig {
    fn default() -> (r: SandboxConfig)
        ensures
            r == (SandboxConfig {
                max_memory_bytes: 67_108_864,
                max_instructions: 1_000_000,
                timeout_ms: 5_000,
            }),
    {
        SandboxConfig {
            max_memory_bytes: 67_108_864,
            max_instructions: 1_000_000,
            timeout_ms: 5_000,
        }
    }
}

/// What a run gave.
#[derive(Clone, Debug, PartialEq, Eq)]
pub struct SandboxResult {
    /// What the guest wrote.
    pub stdout: Vec<u8>,
    /// How many milliseconds it took.
    pub execution_time_ms: u64,
    /// How many bytes of memory it has.
    pub memory_bytes_used: usize,
}

/// What is to run.
#[derive(Debug, PartialEq)]
pub struct SandboxJob {
    /// The call.
    pub tool_call_id: String,
    /// The module.
    pub wasm: Vec<u8>,
    /// The input.
    pub input: Vec<u8>,
}

/// The bytes that a text stands for in base64, or why it stands for none, in the words of
/// `base64`.
pub uninterp spec fn base64_bytes(text: Seq<char>) -> Result<Seq<u8>, Seq<char>>;

/// The text of bytes, with replacement characters where they are not UTF-8.
pub uninterp spec fn lossy_text(bytes: Seq<u8>) -> Seq<char>;

/// `base64::engine::general_purpose::STANDARD.decode`: the bytes that a text stands for in the
/// standard alphabet with padding, or what is wrong with the text. Both depend on the text
/// alone.
#[verifier::external_body]
fn decode_base64(text: &str) -> (r: Result<Vec<u8>, String>)
    ensures
        match base64_bytes(text@) {
            Ok(bytes) => r matches Ok(v) && v@ == bytes,
            Err(m) => r matches Err(e) && e@ == m,
        },
{
    base64::Engine::decode(&base64::engine::general_purpose::STANDARD, text)
        .map_err(|e| e.to_string())
}

/// `String::from_utf8_lossy`: the text of bytes. Bytes that are UTF-8 give their text; in
/// others, what is not UTF-8 gives way to replacement characters.
#[verifier::external_body]
fn to_lossy_text(bytes: &Vec<u8>) -> (r: String)
    ensures
        r@ == lossy_text(bytes@),
        valid_utf8(bytes@) ==> r@ == decode_utf8(bytes@),
{
    String::from_utf8_lossy(bytes).into_owned()
}

/// Why a call cannot be run.
pub enum CallRefusal {
    /// What is wrong with the module.
    Wasm(Seq<char>),
    /// What is wrong with the input.
    Input(Seq<char>),
}

/// A call that is to run, by its parts.
pub struct JobView {
    pub tool_call_id: Seq<char>,
    pub wasm: Seq<u8>,
    pub input: Seq<u8>,
}

/// The tools whose calls are run.
pub open spec fn runs_code(name: Seq<char>) -> bool {
    name == "run_code"@ || name == "sandbox_exec"@
}

/// The module that arguments carry.
pub open spec fn wasm_of(arguments: JsonView) -> Result<Seq<u8>, CallRefusal> {
    match json_member(arguments, "wasm"@) {
        Some(JsonView::String(text)) => match base64_bytes(text) {
            Ok(bytes) => Ok(bytes),
            Err(m) => Err(CallRefusal::Wasm("`wasm` is not valid base64: "@ + m)),
        },
        _ => Err(CallRefusal::Wasm("`wasm` must be a base64-encoded string"@)),
    }
}

/// The input that arguments carry.
pub open spec fn input_of(arguments: JsonView) -> Result<Seq<u8>, CallRefusal> {
    match json_member(arguments, "input"@) {
        None => Ok(Seq::empty()),
        Some(JsonView::String(text)) => Ok(encode_utf8(text)),
        Some(_) => Err(CallRefusal::Input("`input` must be a string"@)),
    }
}

/// What is to run for a block, if anything, or why it cannot be run.
pub open spec fn routed(block: BlockView) -> Result<Option<JobView>, CallRefusal> {
    match block {
        BlockView::ToolCall { id, name, arguments } => if runs_code(name) {
            match wasm_of(arguments) {
                Err(why) => Err(why),
                Ok(wasm) => match input_of(arguments) {
                    Err(why) => Err(why),
                    Ok(input) => Ok(Some(JobView { tool_call_id: id, wasm, input })),
                },
            }
        } else {
            Ok(None)
        },
        _ => Ok(None),
    }
}

/// An error says why a call cannot be run.
pub open spec fn says(e: PluginError, why: CallRefusal) -> bool {
    match why {
        CallRefusal::Wasm(m) => e matches PluginError::Validation { schema, message } && schema@
            == "run_code.wasm"@ && message@ == m,
        CallRefusal::Input(m) => e matches PluginError::Validation { schema, message } && schema@
            == "run_code.input"@ && message@ == m,
    }
}

/// The module that arguments carry.
fn read_wasm(arguments: &Json) -> (r: Result<Vec<u8>, PluginError>)
    ensures
        match wasm_of(arguments@) {
            Ok(bytes) => r matches Ok(v) && v@ == bytes,
            Err(why) => r matches Err(e) && says(e, why),
        },
{
    broadcast use lemma_json_view;

    if let Some(value) = arguments.get("wasm") {
        if let Some(text) = value.as_str() {
            return match decode_base64(text) {
                Ok(bytes) => Ok(bytes),
                Err(m) => Err(
                    PluginError::Validation {
                        schema: "run_code.wasm".to_owned(),
                        message: "`wasm` is not valid base64: ".to_owned().concat(m.as_str()),
                    },
                ),
            };
        }
    }
    Err(
        PluginError::Validation {
            schema: "run_code.wasm".to_owned(),
            message: "`wasm` must be a base64-encoded string".to_owned(),
        },
    )
}

/// The input that arguments carry.
fn read_input(arguments: &Json) -> (r: Result<Vec<u8>, PluginError>)
    ensures
        match input_of(arguments@) {
            Ok(bytes) => r matches Ok(v) && v@ == bytes,
            Err(why) => r matches Err(e) && says(e, why),
        },
{
    broadcast use lemma_json_view;

    match arguments.get("input") {
        None => Ok(Vec::new()),
        Some(value) => match value.as_str() {
            Some(text) => Ok(text.as_bytes_vec()),
            None => Err(
                PluginError::Validation {
                    schema: "run_code.input".to_owned(),
                    message: "`input` must be a string".to_owned(),
                },
            ),
        },
    }
}

/// The refusal of a guest.
pub open spec fn wasm_refusal(e: PluginError, text: Seq<char>) -> bool {
    e matches PluginError::Validation { schema, message } && schema@ == "wasm"@ && message@ == text
}

/// The refusal of an input that does not fit.
pub open spec fn unfit_message(len: nat, capacity: nat) -> Seq<char> {
    "input of "@ + decimal(len) + " bytes does not fit at scratch offset "@ + decimal(
        INPUT_PTR as nat,
    ) + " (module memory is "@ + decimal(capacity) + " bytes)"@
}

/// Where an input lies in the guest's memory, where it lies anywhere; or that it has no place.
pub open spec fn input_place(len: nat, capacity: Option<nat>) -> Result<Option<(int, int)>, ()> {
    if len == 0 {
        Ok(None)
    } else {
        match capacity {
            Some(c) => if INPUT_PTR + len <= c {
                Ok(Some((INPUT_PTR as int, INPUT_PTR + len)))
            } else {
                Err(())
            },
            None => Err(()),
        }
    }
}

/// Where an input ends in the guest's memory, of which `capacity` bytes are there; an empty
/// input goes nowhere.
pub fn place_input(len: usize, capacity: Option<usize>) -> (r: Result<Option<usize>, PluginError>)
    ensures
        match input_place(
            len as nat,
            match capacity {
                Some(c) => Some(c as nat),
                None => None,
            },
        ) {
            Ok(Some(place)) => r matches Ok(Some(end)) && end == place.1,
            Ok(None) => r matches Ok(None),
            Err(_) => r is Err,
        },
        if len == 0 {
            r == Ok::<Option<usize>, PluginError>(None)
        } else {
            match capacity {
                None => r matches Err(e) && wasm_refusal(
                    e,
                    "module has no exported `memory` to receive input"@,
                ),
                Some(c) => if INPUT_PTR + len > usize::MAX {
                    r matches Err(PluginError::Internal(m)) && m@ == "input pointer overflow"@
                } else if INPUT_PTR + len > c {
                    r matches Err(e) && wasm_refusal(e, unfit_message(len as nat, c as nat))
                } else {
                    r == Ok::<Option<usize>, PluginError>(Some((INPUT_PTR + len) as usize))
                },
            }
        },
{
    if len == 0 {
        return Ok(None);
    }
    match capacity {
        None => Err(
            PluginError::Validation {
                schema: "wasm".to_owned(),
                message: "module has no exported `memory` to receive input".to_owned(),
            },
        ),
        Some(c) => match INPUT_PTR.checked_add(len) {
            None => Err(PluginError::Internal("input pointer overflow".to_owned())),
            Some(end) => if end > c {
                Err(
                    PluginError::Validation {
                        schema: "wasm".to_owned(),
                        message: "input of ".to_owned().concat(
                            decimal_text(len as u128).as_str(),
                        ).concat(" bytes does not fit at scratch offset ").concat(
                            decimal_text(INPUT_PTR as u128).as_str(),
                        ).concat(" (module memory is ").concat(
                            decimal_text(c as u128).as_str(),
                        ).concat(" bytes)"),
                    },
                )
            } else {
                Ok(Some(end))
            },
        },
    }
}

/// Why a guest may not write.
pub open spec fn write_refusal(memory: nat, written: nat, ptr: i32, len: i32) -> Option<Seq<char>> {
    if ptr < 0 {
        Some("write_out: negative pointer"@)
    } else if len < 0 {
        Some("write_out: negative length"@)
    } else if ptr + len > usize::MAX {
        Some("write_out: pointer overflow"@)
    } else if ptr + len > memory {
        Some("write_out: memory range out of bounds"@)
    } else if written + len > usize::MAX {
        Some("write_out: output size overflow"@)
    } else if written + len > MAX_OUTPUT_BYTES {
        Some("write_out: output limit exceeded"@)
    } else {
        None
    }
}

/// What a guest has written after it asked to write more.
pub open spec fn output_after(stdout: Seq<u8>, memory: Seq<u8>, ptr: i32, len: i32) -> Seq<u8> {
    if write_refusal(memory.len(), stdout.len(), ptr, len) is None {
        stdout + memory.subrange(ptr as int, ptr + len)
    } else {
        stdout
    }
}

/// Appends what a guest writes, `len` bytes of its memory from `ptr` on, or says why it may
/// not.
pub fn append_output(stdout: &mut Vec<u8>, memory: &[u8], ptr: i32, len: i32) -> (r: Result<
    (),
    String,
>)
    ensures
        final(stdout)@ == output_after(old(stdout)@, memory@, ptr, len),
        match write_refusal(memory@.len(), old(stdout)@.len(), ptr, len) {
            Some(m) => {
                &&& r matches Err(e) && e@ == m
                &&& final(stdout)@ == old(stdout)@
            },
            None => {
                &&& r is Ok
                &&& final(stdout)@ == old(stdout)@ + memory@.subrange(ptr as int, ptr + len)
            },
        },
{
    if ptr < 0 {
        return Err("write_out: negative pointer".to_owned());
    }
    if len < 0 {
        return Err("write_out: negative length".to_owned());
    }
    let start: usize = ptr as usize;
    let count: usize = len as usize;
    let end: usize = match start.checked_add(count) {
        Some(end) => end,
        None => {
            return Err("write_out: pointer overflow".to_owned());
        },
    };
    if end > memory.len() {
        return Err("write_out: memory range out of bounds".to_owned());
    }
    let total: usize = match stdout.len().checked_add(count) {
        Some(total) => total,
        None => {
            return Err("write_out: output size overflow".to_owned());
        },
    };
    if total > MAX_OUTPUT_BYTES {
        return Err("write_out: output limit exceeded".to_owned());
    }
    let ghost before = stdout@;
    let mut i: usize = start;
    assert(memory@.subrange(start as int, start as int) =~= Seq::<u8>::empty());
    while i < end
        invariant
            start <= i <= end <= memory@.len(),
            stdout@ == before + memory@.subrange(start as int, i as int),
        decreases end - i,
    {
        stdout.push(memory[i]);
        i = i + 1;
        assert(stdout@ =~= before + memory@.subrange(start as int, i as int));
    }
    Ok(())
}

/// A step of a run that can fail.
#[derive(Debug, Clone, Copy, PartialEq, Eq, Structural)]
pub enum SandboxStep {
    /// Making the engine.
    Engine,
    /// Compiling the module.
    Compile,
    /// Setting the number of instructions.
    Fuel,
    /// Offering the guest its way to write.
    Import,
    /// Making an instance.
    Instantiate,
    /// Finding the guest's entry.
    Entry,
}

/// The error of a step that failed with the given text.
pub fn step_error(step: SandboxStep, text: &str) -> (r: PluginError)
    ensures
        match step {
            SandboxStep::Engine => r matches PluginError::Internal(m) && m@ == text@,
            SandboxStep::Compile => wasm_refusal(r, "module compilation failed: "@ + text@),
            SandboxStep::Fuel => r matches PluginError::Internal(m) && m@
                == "failed to set fuel budget: "@ + text@,
            SandboxStep::Import => r matches PluginError::Internal(m) && m@
                == "failed to define write_out import: "@ + text@,
            SandboxStep::Instantiate => r matches PluginError::Internal(m) && m@
                == "instantiation failed: "@ + text@,
            SandboxStep::Entry => wasm_refusal(
                r,
                "module does not export run(ptr, len) -> i32: "@ + text@,
            ),
        },
{
    match step {
        SandboxStep::Engine => PluginError::Internal(text.to_owned()),
        SandboxStep::Compile => PluginError::Validation {
            schema: "wasm".to_owned(),
            message: "module compilation failed: ".to_owned().concat(text),
        },
        SandboxStep::Fuel => PluginError::Internal(
            "failed to set fuel budget: ".to_owned().concat(text),
        ),
        SandboxStep::Import => PluginError::Internal(
            "failed to define write_out import: ".to_owned().concat(text),
        ),
        SandboxStep::Instantiate => PluginError::Internal(
            "instantiation failed: ".to_owned().concat(text),
        ),
        SandboxStep::Entry => PluginError::Validation {
            schema: "wasm".to_owned(),
            message: "module does not export run(ptr, len) -> i32: ".to_owned().concat(text),
        },
    }
}

/// How a guest stopped that did not come to its end.
#[derive(Debug, PartialEq)]
pub enum GuestFault {
    /// Its instructions were used up.
    OutOfFuel,
    /// Its time was over.
    Interrupt,
    /// Any other trap, by its text.
    Trap(String),
    /// Anything else, by its text.
    Other(String),
}

/// The text of a fault.
pub open spec fn fault_text(f: GuestFault) -> Seq<char> {
    match f {
        GuestFault::OutOfFuel => "fuel exhausted: instruction budget exceeded"@,
        GuestFault::Interrupt => "epoch deadline reached: execution timed out"@,
        GuestFault::Trap(text) => "wasm trap: "@ + text@,
        GuestFault::Other(text) => "sandbox execution failed: "@ + text@,
    }
}

/// The text of a fault.
pub fn trap_message(fault: &GuestFault) -> (r: String)
    ensures
        r@ == fault_text(*fault),
{
    match fault {
        GuestFault::OutOfFuel => "fuel exhausted: instruction budget exceeded".to_owned(),
        GuestFault::Interrupt => "epoch deadline reached: execution timed out".to_owned(),
        GuestFault::Trap(text) => "wasm trap: ".to_owned().concat(text.as_str()),
        GuestFault::Other(text) => "sandbox execution failed: ".to_owned().concat(text.as_str()),
    }
}

/// What a call is answered with.
pub open spec fn answer_text(r: Result<SandboxResult, PluginError>) -> Seq<char> {
    match r {
        Ok(result) => lossy_text(result.stdout@),
        Err(e) => error_text(e),
    }
}

/// A run succeeded: it came to its end, with status zero.
pub open spec fn is_success(status: Result<i32, GuestFault>) -> bool {
    status == Ok::<i32, GuestFault>(0)
}

/// What is remembered after a run.
pub open spec fn remembered(
    before: Option<(u64, usize)>,
    status: Result<i32, GuestFault>,
    ms: u64,
    bytes: usize,
) -> Option<(u64, usize)> {
    if is_success(status) {
        Some((ms, bytes))
    } else {
        before
    }
}

/// Runs WebAssembly that a model wrote.
pub struct SandboxPlugin {
    config: SandboxConfig,
    last: Option<(u64, usize)>,
}

impl SandboxPlugin {
    /// The bounds of a run.
    pub closed spec fn bounds(&self) -> SandboxConfig {
        self.config
    }

    /// The time and the memory of the last run that came to its end.
    pub closed spec fn last(&self) -> Option<(u64, usize)> {
        self.last
    }

    /// A sandbox with the given bounds.
    pub fn new(config: SandboxConfig) -> (r: SandboxPlugin)
        ensures
            r.bounds() == config,
            r.last() is None,
    {
        SandboxPlugin { config, last: None }
    }

    /// The plugin's name.
    pub fn name(&self) -> (r: &'static str)
        ensures
            r@ == NAME@,
    {
        NAME
    }

    /// The bounds of a run.
    pub fn config(&self) -> (r: SandboxConfig)
        ensures
            r == self.bounds(),
    {
        self.config
    }

    /// The time and the memory of the last run that came to its end.
    pub fn last_diagnostic(&self) -> (r: Option<(u64, usize)>)
        ensures
            r == self.last(),
    {
        self.last
    }

    /// What is to run for a block, if anything.
    pub fn route(chunk: &MessageContentBlock) -> (r: Result<Option<SandboxJob>, PluginError>)
        ensures
            match routed(chunk@) {
                Ok(Some(job)) => r matches Ok(Some(j)) && j.tool_call_id@ == job.tool_call_id
                    && j.wasm@ == job.wasm && j.input@ == job.input,
                Ok(None) => r matches Ok(None),
                Err(why) => r matches Err(e) && says(e, why),
            },
    {
        if let MessageContentBlock::ToolCall { id, name, arguments } = chunk {
            if str_eq(name.as_str(), "run_code") || str_eq(name.as_str(), "sandbox_exec") {
                let wasm = read_wasm(arguments)?;
                let input = read_input(arguments)?;
                return Ok(Some(SandboxJob { tool_call_id: id.clone(), wasm, input }));
            }
        }
        Ok(None)
    }

    /// The end of a run: what it gave, or why it failed. Only a run that came to its end with
    /// status zero is remembered.
    pub fn conclude(
        &mut self,
        status: Result<i32, GuestFault>,
        stdout: Vec<u8>,
        execution_time_ms: u64,
        memory_bytes_used: usize,
    ) -> (r: Result<SandboxResult, PluginError>)
        ensures
            final(self).bounds() == old(self).bounds(),
            r is Ok == is_success(status),
            final(self).last() == remembered(
                old(self).last(),
                status,
                execution_time_ms,
                memory_bytes_used,
            ),
            match status {
                Err(fault) => {
                    &&& r matches Err(PluginError::Internal(m)) && m@ == fault_text(fault)
                    &&& final(self).last() == old(self).last()
                },
                Ok(code) => if code != 0 {
                    &&& r matches Err(PluginError::Internal(m)) && m@
                        == "guest run reported status "@ + signed_decimal(code as int)
                    &&& final(self).last() == old(self).last()
                } else {
                    &&& r == Ok::<SandboxResult, PluginError>(
                        SandboxResult { stdout, execution_time_ms, memory_bytes_used },
                    )
                    &&& final(self).last() == Some((execution_time_ms, memory_bytes_used))
                },
            },
    {
        match status {
            Err(fault) => Err(PluginError::Internal(trap_message(&fault))),
            Ok(code) => {
                if code != 0 {
                    return Err(
                        PluginError::Internal(
                            "guest run reported status ".to_owned().concat(
                                signed_decimal_text(code as i64).as_str(),
                            ),
                        ),
                    );
                }
                self.last = Some((execution_time_ms, memory_bytes_used));
                Ok(SandboxResult { stdout, execution_time_ms, memory_bytes_used })
            },
        }
    }

    /// Answers the call of a job: with what the guest wrote, or with the text of the error.
    pub fn deliver(
        chunk: &mut MessageContentBlock,
        job: &SandboxJob,
        outcome: &Result<SandboxResult, PluginError>,
    )
        ensures
            final(chunk)@ == (BlockView::ToolResult {
                tool_call_id: job.tool_call_id@,
                output: answer_text(*outcome),
            }),
            (*outcome matches Ok(result) && valid_utf8(result.stdout@)) ==> final(chunk)@
                == (BlockView::ToolResult {
                tool_call_id: job.tool_call_id@,
                output: decode_utf8(outcome->Ok_0.stdout@),
            }),
    {
        let output = match outcome {
            Ok(result) => to_lossy_text(&result.stdout),
            Err(e) => e.to_text(),
        };
        *chunk = MessageContentBlock::ToolResult { tool_call_id: job.tool_call_id.clone(), output };
    }
}

/// A guest never writes more than it may, whatever it asks for.
pub proof fn law_output_is_bounded(memory: nat, written: nat, ptr: i32, len: i32)
    requires
        written <= MAX_OUTPUT_BYTES,
        write_refusal(memory, written, ptr, len) is None,
    ensures
        written + len <= MAX_OUTPUT_BYTES,
        0 <= ptr <= ptr + len <= memory,
{
}

/// Blocks other than calls of the two tools pass untouched.
pub proof fn law_other_blocks_pass(block: BlockView)
    requires
        !(block matches BlockView::ToolCall { name, .. } && runs_code(name)),
    ensures
        routed(block) matches Ok(None),
{
}

} // verus!
