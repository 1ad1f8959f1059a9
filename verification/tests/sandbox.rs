//! The sandbox: routing, memory, output, limits and answers, with real guests.

use base64::engine::general_purpose::STANDARD;
use base64::Engine as _;
use cuca_plugins::error::PluginError;
use cuca_plugins::json::Json;
use cuca_plugins::plugins::sandbox::{
    append_output, place_input, step_error, trap_message, GuestFault, SandboxConfig, SandboxPlugin,
    SandboxResult, SandboxStep, INPUT_PTR, MAX_OUTPUT_BYTES,
};
use cuca_plugins::types::MessageContentBlock;
use wasmtime::{
    Caller, Config, Engine, Extern, Linker, Module, Store, StoreLimits, StoreLimitsBuilder, Trap,
};

const HELLO_WAT: &str = r#"
    (module
      (import "env" "write_out" (func $write_out (param i32 i32)))
      (memory (export "memory") 1)
      (data (i32.const 0) "hello from wasm")
      (func (export "run") (param $ptr i32) (param $len i32) (result i32)
        (call $write_out (i32.const 0) (i32.const 15))
        (i32.const 0)))
"#;

const ECHO_WAT: &str = r#"
    (module
      (import "env" "write_out" (func $write_out (param i32 i32)))
      (memory (export "memory") 1)
      (func (export "run") (param $ptr i32) (param $len i32) (result i32)
        (call $write_out (local.get $ptr) (local.get $len))
        (i32.const 0)))
"#;

const INFINITE_LOOP_WAT: &str = r#"
    (module
      (func (export "run") (param $ptr i32) (param $len i32) (result i32)
        (loop $l (br $l))
        (i32.const 0)))
"#;

const BUSY_LOOP_WAT: &str = r#"
    (module
      (func (export "run") (param $ptr i32) (param $len i32) (result i32)
        (local $i i32)
        (loop $l
          (local.set $i (i32.add (local.get $i) (i32.const 1)))
          (br $l))
        (i32.const 0)))
"#;

const MEMORY_GROW_WAT: &str = r#"
    (module
      (memory (export "memory") 1 100)
      (func (export "run") (param $ptr i32) (param $len i32) (result i32)
        (drop (memory.grow (i32.const 20)))
        (i32.const 0)))
"#;

struct StoreData {
    limits: StoreLimits,
    stdout: Vec<u8>,
}

fn write_out(mut caller: Caller<'_, StoreData>, ptr: i32, len: i32) -> wasmtime::Result<()> {
    let memory = caller
        .get_export("memory")
        .and_then(Extern::into_memory)
        .ok_or_else(|| wasmtime::Error::msg("write_out: module has no exported memory"))?;
    let mut stdout = std::mem::take(&mut caller.data_mut().stdout);
    let written = append_output(&mut stdout, memory.data(&caller), ptr, len);
    caller.data_mut().stdout = stdout;
    written.map_err(wasmtime::Error::msg)
}

fn fault_of(error: &wasmtime::Error) -> GuestFault {
    match error.downcast_ref::<Trap>() {
        Some(Trap::OutOfFuel) => GuestFault::OutOfFuel,
        Some(Trap::Interrupt) => GuestFault::Interrupt,
        Some(trap) => GuestFault::Trap(trap.to_string()),
        None => GuestFault::Other(format!("{error:#}")),
    }
}

/// Runs a guest; `late` runs it past its deadline.
fn run(
    plugin: &mut SandboxPlugin,
    wasm: &[u8],
    input: &[u8],
    late: bool,
) -> Result<SandboxResult, PluginError> {
    let mut config = Config::new();
    config.consume_fuel(true).epoch_interruption(true);
    config.memory_reservation(0).memory_guard_size(0).memory_reservation_for_growth(0);
    let engine =
        Engine::new(&config).map_err(|e| step_error(SandboxStep::Engine, &e.to_string()))?;
    let module = Module::new(&engine, wasm)
        .map_err(|e| step_error(SandboxStep::Compile, &e.to_string()))?;
    let mut store = Store::new(
        &engine,
        StoreData {
            limits: StoreLimitsBuilder::new()
                .memory_size(plugin.config().max_memory_bytes)
                .trap_on_grow_failure(true)
                .build(),
            stdout: Vec::new(),
        },
    );
    store.limiter(|data| &mut data.limits);
    store
        .set_fuel(plugin.config().max_instructions)
        .map_err(|e| step_error(SandboxStep::Fuel, &e.to_string()))?;
    let mut linker = Linker::new(&engine);
    linker
        .func_wrap("env", "write_out", write_out)
        .map_err(|e| step_error(SandboxStep::Import, &e.to_string()))?;
    store.set_epoch_deadline(1);
    let instance = linker
        .instantiate(&mut store, &module)
        .map_err(|e| step_error(SandboxStep::Instantiate, &e.to_string()))?;
    let memory = instance.get_memory(&mut store, "memory");
    let end = place_input(input.len(), memory.map(|m| m.data_size(&store)))?;
    if let (Some(memory), Some(end)) = (memory, end) {
        memory.data_mut(&mut store)[INPUT_PTR..end].copy_from_slice(input);
    }
    let entry = instance
        .get_typed_func::<(i32, i32), i32>(&mut store, "run")
        .map_err(|e| step_error(SandboxStep::Entry, &e.to_string()))?;
    if late {
        engine.increment_epoch();
    }
    let status = entry.call(&mut store, (INPUT_PTR as i32, input.len() as i32));
    let used = memory.map(|m| m.data_size(&store)).unwrap_or(0);
    let stdout = std::mem::take(&mut store.data_mut().stdout);
    plugin.conclude(status.map_err(|e| fault_of(&e)), stdout, 0, used)
}

fn call(name: &str, arguments: &str) -> MessageContentBlock {
    MessageContentBlock::ToolCall {
        id: "call-1".to_owned(),
        name: name.to_owned(),
        arguments: Json::parse(arguments).unwrap(),
    }
}

#[test]
fn run_executes_hello_module() {
    let mut plugin = SandboxPlugin::new(SandboxConfig::default());
    let result = run(&mut plugin, HELLO_WAT.as_bytes(), &[], false).unwrap();
    assert!(result.execution_time_ms < 10_000);
    assert_eq!(result.stdout, b"hello from wasm");
    assert_eq!(plugin.last_diagnostic(), Some((0, 65_536)));
}

#[test]
fn input_is_written_at_scratch_ptr() {
    let mut plugin = SandboxPlugin::new(SandboxConfig::default());
    let result = run(&mut plugin, ECHO_WAT.as_bytes(), b"hi there", false).unwrap();
    assert_eq!(result.stdout, b"hi there");
}

#[test]
fn fuel_exhaustion_traps() {
    let mut plugin = SandboxPlugin::new(SandboxConfig {
        max_instructions: 100,
        ..SandboxConfig::default()
    });
    let err = run(&mut plugin, INFINITE_LOOP_WAT.as_bytes(), &[], false).unwrap_err();
    match err {
        PluginError::Internal(message) => assert!(message.contains("fuel")),
        other => panic!("expected Internal fuel error, got {other:?}"),
    }
    assert_eq!(plugin.last_diagnostic(), None);
}

#[test]
fn memory_limit_traps() {
    let mut plugin = SandboxPlugin::new(SandboxConfig {
        max_memory_bytes: 1024 * 1024,
        ..SandboxConfig::default()
    });
    let err = run(&mut plugin, MEMORY_GROW_WAT.as_bytes(), &[], false).unwrap_err();
    match err {
        PluginError::Internal(message) => {
            assert!(message.contains("growing memory"), "unexpected message: {message}")
        }
        other => panic!("expected Internal memory error, got {other:?}"),
    }
}

#[test]
fn timeout_interrupts() {
    let mut plugin = SandboxPlugin::new(SandboxConfig {
        timeout_ms: 1,
        max_instructions: 1_000_000_000,
        ..SandboxConfig::default()
    });
    let err = run(&mut plugin, BUSY_LOOP_WAT.as_bytes(), &[], true).unwrap_err();
    match err {
        PluginError::Internal(message) => {
            assert!(message.contains("timed out"), "unexpected message: {message}")
        }
        other => panic!("expected Internal timeout error, got {other:?}"),
    }
}

#[test]
fn on_stream_chunk_routes_run_code_and_passes_unknown_through() {
    let mut plugin = SandboxPlugin::new(SandboxConfig::default());
    let wasm = STANDARD.encode(ECHO_WAT.as_bytes());
    let mut chunk = call("run_code", &format!(r#"{{ "wasm": "{wasm}", "input": "hello" }}"#));
    let job = SandboxPlugin::route(&chunk).unwrap().unwrap();
    assert_eq!(job.wasm, ECHO_WAT.as_bytes());
    let outcome = run(&mut plugin, &job.wasm, &job.input, false);
    SandboxPlugin::deliver(&mut chunk, &job, &outcome);
    assert_eq!(
        chunk,
        MessageContentBlock::ToolResult {
            tool_call_id: "call-1".to_owned(),
            output: "hello".to_owned(),
        }
    );

    let other = call("some_other_tool", "{}");
    assert_eq!(SandboxPlugin::route(&other), Ok(None));
    assert!(
        matches!(other, MessageContentBlock::ToolCall { ref name, .. } if name == "some_other_tool")
    );
}

#[test]
fn plugin_name_is_wasm_sandbox() {
    assert_eq!(
        SandboxPlugin::new(SandboxConfig::default()).name(),
        "wasm-sandbox"
    );
}

#[test]
fn plugin_is_send_sync() {
    fn assert_send_sync<T: Send + Sync>() {}
    assert_send_sync::<SandboxPlugin>();
}

#[test]
fn malformed_calls_are_refused() {
    let refused = |arguments: &str| SandboxPlugin::route(&call("sandbox_exec", arguments)).unwrap_err();
    assert_eq!(
        refused("{}"),
        PluginError::Validation {
            schema: "run_code.wasm".to_owned(),
            message: "`wasm` must be a base64-encoded string".to_owned(),
        }
    );
    assert_eq!(
        refused(r#"{ "wasm": "" , "input": 3 }"#),
        PluginError::Validation {
            schema: "run_code.input".to_owned(),
            message: "`input` must be a string".to_owned(),
        }
    );
    let reason = STANDARD.decode("!!!").unwrap_err().to_string();
    assert_eq!(
        refused(r#"{ "wasm": "!!!" }"#),
        PluginError::Validation {
            schema: "run_code.wasm".to_owned(),
            message: format!("`wasm` is not valid base64: {reason}"),
        }
    );
}

#[test]
fn an_absent_input_is_empty() {
    let job = SandboxPlugin::route(&call("sandbox_exec", r#"{ "wasm": "AAE=" }"#)).unwrap().unwrap();
    assert_eq!(job.wasm, vec![0, 1]);
    assert!(job.input.is_empty());
}

#[test]
fn inputs_must_fit_the_memory() {
    assert_eq!(place_input(0, None), Ok(None));
    assert_eq!(place_input(8, Some(INPUT_PTR + 8)), Ok(Some(INPUT_PTR + 8)));
    assert_eq!(
        place_input(8, None),
        Err(PluginError::Validation {
            schema: "wasm".to_owned(),
            message: "module has no exported `memory` to receive input".to_owned(),
        })
    );
    assert_eq!(
        place_input(8, Some(1031)),
        Err(PluginError::Validation {
            schema: "wasm".to_owned(),
            message: "input of 8 bytes does not fit at scratch offset 1024 (module memory is 1031 bytes)"
                .to_owned(),
        })
    );
    assert_eq!(
        place_input(usize::MAX, Some(usize::MAX)),
        Err(PluginError::Internal("input pointer overflow".to_owned()))
    );
}

#[test]
fn output_is_bounded() {
    let memory = [7u8; 4];
    let mut stdout = Vec::new();
    assert_eq!(append_output(&mut stdout, &memory, 1, 2), Ok(()));
    assert_eq!(stdout, vec![7, 7]);
    let refused = |stdout: &mut Vec<u8>, ptr: i32, len: i32| {
        append_output(stdout, &memory, ptr, len).unwrap_err()
    };
    assert_eq!(refused(&mut stdout, -1, 1), "write_out: negative pointer");
    assert_eq!(refused(&mut stdout, 1, -1), "write_out: negative length");
    assert_eq!(refused(&mut stdout, 3, 2), "write_out: memory range out of bounds");
    assert_eq!(stdout, vec![7, 7]);
    let mut full = vec![0u8; MAX_OUTPUT_BYTES - 1];
    assert_eq!(append_output(&mut full, &memory, 0, 1), Ok(()));
    assert_eq!(refused(&mut full, 0, 1), "write_out: output limit exceeded");
    assert_eq!(full.len(), MAX_OUTPUT_BYTES);
}

#[test]
fn faults_and_statuses_are_reported() {
    assert_eq!(
        trap_message(&GuestFault::Trap("unreachable".to_owned())),
        "wasm trap: unreachable"
    );
    assert_eq!(
        trap_message(&GuestFault::Other("x".to_owned())),
        "sandbox execution failed: x"
    );
    let mut plugin = SandboxPlugin::new(SandboxConfig::default());
    assert_eq!(
        plugin.conclude(Ok(-3), vec![], 1, 2),
        Err(PluginError::Internal("guest run reported status -3".to_owned()))
    );
    assert_eq!(plugin.last_diagnostic(), None);
    assert!(plugin.conclude(Ok(0), vec![], 1, 2).is_ok());
    assert_eq!(plugin.last_diagnostic(), Some((1, 2)));
}

#[test]
fn output_that_is_no_text_is_replaced() {
    let mut chunk = call("run_code", r#"{ "wasm": "" }"#);
    let job = SandboxPlugin::route(&chunk).unwrap().unwrap();
    let outcome = Ok(SandboxResult {
        stdout: vec![b'a', 0xff, b'b'],
        execution_time_ms: 0,
        memory_bytes_used: 0,
    });
    SandboxPlugin::deliver(&mut chunk, &job, &outcome);
    assert_eq!(
        chunk,
        MessageContentBlock::ToolResult {
            tool_call_id: "call-1".to_owned(),
            output: "a\u{fffd}b".to_owned(),
        }
    );
}
