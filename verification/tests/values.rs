use wasm_link::error::{ResourceFault, RuntimeFault, runtime_error};
use wasm_link::value::{ensure_supported_value, ensure_supported_values};
use wasm_link::{AsyncRuntimeError, DispatchError, Value};
use wasmtime::component::{Component, FutureReader, Linker, StreamReader, Val};
use wasmtime::{Config, Engine, Store};

fn unsupported(result: Result<(), DispatchError>) -> Option<String> {
    match result {
        Err(DispatchError::UnsupportedType(name)) => Some(name),
        _ => None,
    }
}

#[test]
fn accepts_nested_component_values() -> Result<(), DispatchError> {
    let value = Value::Record(vec![
        ("list".to_string(), Value::List(vec![Value::U32(1)])),
        ("tuple".to_string(), Value::Tuple(vec![Value::U32(2)])),
        (
            "map".to_string(),
            Value::Mapping(vec![(Value::String("key".to_string()), Value::U32(3))]),
        ),
        ("variant".to_string(), Value::Variant("some".to_string(), Some(Box::new(Value::U32(4))))),
        ("option".to_string(), Value::Option(Some(Box::new(Value::U32(5))))),
        ("ok".to_string(), Value::Result(Ok(Some(Box::new(Value::U32(6)))))),
        ("err".to_string(), Value::Result(Err(Some(Box::new(Value::U32(7)))))),
    ]);
    ensure_supported_value(&value)
}

#[test]
fn rejects_future_and_stream_values() -> Result<(), Box<dyn std::error::Error>> {
    let mut config = Config::new();
    config.concurrency_support(true);
    let engine = Engine::new(&config)?;
    let mut store = Store::new(&engine, ());
    let future = FutureReader::new(&mut store, async { Ok::<_, wasmtime::Error>(1_u32) })?
        .try_into_future_any(&mut store)?;
    let stream = StreamReader::new(&mut store, vec![1_u32])?.try_into_stream_any(&mut store)?;
    assert!(matches!(
        ensure_supported_value(&Value::Future(future)),
        Err(DispatchError::UnsupportedType(name)) if name == "future"
    ));
    assert!(matches!(
        ensure_supported_value(&Value::Stream(stream)),
        Err(DispatchError::UnsupportedType(name)) if name == "stream"
    ));
    Ok(())
}

const ERROR_CONTEXT_COMPONENT: &str = r#"
(component
  (core module $libc (memory (export "memory") 1))
  (core instance $libc (instantiate $libc))
  (core func $new (canon error-context.new (memory (core memory $libc "memory"))))
  (core module $m
    (import "" "new" (func $new (param i32 i32) (result i32)))
    (func (export "make") (result i32) (call $new (i32.const 0) (i32.const 0))))
  (core instance $i (instantiate $m (with "" (instance (export "new" (func $new))))))
  (func (export "make-error-context") (result error-context)
    (canon lift (core func $i "make"))))
"#;

#[test]
fn rejects_error_context_values() -> Result<(), Box<dyn std::error::Error>> {
    futures::executor::block_on(async {
        let mut config = Config::new();
        config.wasm_component_model_async(true);
        config.wasm_component_model_error_context(true);
        config.memory_reservation(0);
        config.memory_guard_size(0);
        let engine = Engine::new(&config)?;
        let component = Component::new(&engine, ERROR_CONTEXT_COMPONENT)?;
        let mut store = Store::new(&engine, ());
        let instance = Linker::new(&engine).instantiate_async(&mut store, &component).await?;
        let function = instance
            .get_func(&mut store, "make-error-context")
            .ok_or("missing make-error-context export")?;
        let mut results = [Val::Bool(false)];
        function.call_async(&mut store, &[], &mut results).await?;
        let value = match &results[0] {
            Val::ErrorContext(_) => Value::ErrorContext,
            other => panic!("not an error context: {other:?}"),
        };
        assert!(matches!(
            ensure_supported_value(&value),
            Err(DispatchError::UnsupportedType(name)) if name == "error-context"
        ));
        Ok(())
    })
}

#[test]
fn finds_what_is_barred_wherever_it_hides() {
    let barred = || Box::new(Value::ErrorContext);
    let hidden = [
        Value::List(vec![Value::Bool(true), Value::ErrorContext]),
        Value::Tuple(vec![Value::ErrorContext]),
        Value::FixedLengthList(vec![Value::U8(1), Value::ErrorContext]),
        Value::Mapping(vec![(Value::U8(1), Value::ErrorContext)]),
        Value::Mapping(vec![(Value::ErrorContext, Value::U8(1))]),
        Value::Record(vec![("field".to_string(), Value::ErrorContext)]),
        Value::Variant("case".to_string(), Some(barred())),
        Value::Option(Some(barred())),
        Value::Result(Ok(Some(barred()))),
        Value::Result(Err(Some(barred()))),
    ];
    for value in &hidden {
        assert_eq!(unsupported(ensure_supported_value(value)).as_deref(), Some("error-context"));
    }
}

#[test]
fn leaves_alone_what_has_no_parts() {
    let plain = [
        Value::Option(None),
        Value::Result(Ok(None)),
        Value::Result(Err(None)),
        Value::Variant("case".to_string(), None),
        Value::Enum("case".to_string()),
        Value::Flags(vec!["flag".to_string()]),
        Value::Char('x'),
        Value::Float32(0),
        Value::Float64(0),
        Value::FixedLengthList(vec![Value::U8(1)]),
    ];
    assert!(ensure_supported_values(&plain).is_ok());
    assert!(ensure_supported_values(&[]).is_ok());
}

#[test]
fn reports_the_first_barred_value() -> Result<(), Box<dyn std::error::Error>> {
    let mut config = Config::new();
    config.concurrency_support(true);
    let engine = Engine::new(&config)?;
    let mut store = Store::new(&engine, ());
    let stream = StreamReader::new(&mut store, vec![1_u32])?.try_into_stream_any(&mut store)?;
    let values = [
        Value::U8(1),
        Value::Mapping(vec![(Value::U8(2), Value::Stream(stream))]),
        Value::ErrorContext,
    ];
    assert_eq!(unsupported(ensure_supported_values(&values)).as_deref(), Some("stream"));
    Ok(())
}

fn case(error: DispatchError) -> (String, Option<String>) {
    match error.into_value() {
        Value::Variant(name, None) => (name, None),
        Value::Variant(name, Some(inner)) => match *inner {
            Value::String(text) => (name, Some(text)),
            other => panic!("unexpected payload: {other:?}"),
        },
        other => panic!("unexpected value: {other:?}"),
    }
}

fn some(name: &str, text: &str) -> (String, Option<String>) {
    (name.to_string(), Some(text.to_string()))
}

#[test]
fn plugins_see_errors_as_variants() {
    assert_eq!(case(DispatchError::LockRejected), ("lock-rejected".to_string(), None));
    assert_eq!(
        case(DispatchError::InvalidInterfacePath("a/b".to_string())),
        some("invalid-interface-path", "a/b"),
    );
    assert_eq!(
        case(DispatchError::InvalidFunction("a/b:c".to_string())),
        some("invalid-function", "a/b:c"),
    );
    assert_eq!(case(DispatchError::MissingResponse), ("missing-response".to_string(), None));
    assert_eq!(
        case(runtime_error(AsyncRuntimeError::DriverStopped)),
        some("runtime-exception", "plugin dispatch driver stopped"),
    );
    let trapped = DispatchError::RuntimeException(RuntimeFault::Engine(wasmtime::Error::msg("boom")));
    assert_eq!(trapped.message(), "Runtime Exception");
    assert_eq!(case(trapped), some("runtime-exception", "boom"));
    assert_eq!(
        case(DispatchError::InvalidArgumentList),
        ("invalid-argument-list".to_string(), None),
    );
    assert_eq!(
        case(DispatchError::UnsupportedType("future".to_string())),
        some("unsupported-type", "future"),
    );
    let fault = |text: &str| ResourceFault { message: text.to_string(), value: Value::U8(9) };
    assert!(matches!(
        DispatchError::ResourceCreationError(fault("table full")).into_value(),
        Value::U8(9)
    ));
    assert!(matches!(
        DispatchError::ResourceReceiveError(fault("no such handle")).into_value(),
        Value::U8(9)
    ));
}

#[test]
fn errors_say_what_happened() {
    let fault = |text: &str| ResourceFault { message: text.to_string(), value: Value::U8(9) };
    let expected = [
        (DispatchError::LockRejected, "Lock Rejected"),
        (
            DispatchError::InvalidInterfacePath("a/b".to_string()),
            "Invalid Interface Path: a/b",
        ),
        (DispatchError::InvalidFunction("a/b:c".to_string()), "Invalid Function: a/b:c"),
        (DispatchError::MissingResponse, "Missing Response"),
        (DispatchError::InvalidArgumentList, "Invalid Argument List"),
        (DispatchError::UnsupportedType("future".to_string()), "Unsupported type: future"),
        (
            DispatchError::ResourceCreationError(fault("table full")),
            "Resource Create Error: table full",
        ),
        (
            DispatchError::ResourceReceiveError(fault("no such handle")),
            "Resource Receive Error: no such handle",
        ),
    ];
    for (error, text) in expected {
        assert_eq!(error.message(), text);
    }
    let drivers = [
        (AsyncRuntimeError::MissingResponse, "plugin dispatch ended without a response"),
        (AsyncRuntimeError::DriverStopped, "plugin dispatch driver stopped"),
        (
            AsyncRuntimeError::CallCancelled,
            "plugin call was cancelled before producing a response",
        ),
        (AsyncRuntimeError::RequestChannelClosed, "plugin dispatch request channel closed"),
        (
            AsyncRuntimeError::SessionUnavailable,
            "plugin call has no active async dispatch scheduler",
        ),
        (AsyncRuntimeError::StoreFailed("trap".to_string()), "plugin store failed: trap"),
    ];
    for (error, text) in drivers {
        assert_eq!(error.message(), text);
        assert_eq!(error.clone(), error);
    }
}
