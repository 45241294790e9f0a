use std::collections::HashMap;

use futures::channel::mpsc::UnboundedReceiver;
use futures::channel::oneshot::{self, Receiver, Sender};
use wasm_link::active::{ActiveCallRecord, ActiveCalls, AsyncLinkage, fail_active_calls};
use wasm_link::call::{CallStep, PluginCall, finish_call, resolve_export, result_buffer};
use wasm_link::channel::RequestChannel;
use wasm_link::dispatch::{DispatchContext, DispatchTarget, dispatch_async, require_session};
use wasm_link::driver::{
    Admission, AsyncInstanceInner, AttachedDriver, DriverPoll, DriverState, Release,
};
use wasm_link::ending::{cancel_waiting, end_session};
use wasm_link::error::RuntimeFault;
use wasm_link::fuel::FuelledStore;
use wasm_link::names::NameTable;
use wasm_link::path::ExecutionPathId;
use wasm_link::plugin::give_initial_fuel;
use wasm_link::request::{
    ActiveCall, Answer, AsyncRequest, Response, ResponseGuard, receive_response,
};
use wasm_link::requests::{
    ConcurrentDriver, ConcurrentStep, LimitedDriver, LimitedStep, fail_requests, one_call_at_a_time,
    store_failed,
};
use wasm_link::scheduler::{AsyncScheduler, SchedulerSlot};
use wasm_link::{
    AsyncRuntimeError, DispatchError, Function, FunctionKind, Remap, ReturnKind, Value,
};
use wasmtime::component::{Component, Instance, Linker, Val};
use wasmtime::{Config, Engine, Store};

type Request = AsyncRequest<&'static str>;
type Inner = AsyncInstanceInner<&'static str, &'static str>;

fn function() -> Function {
    Function::new(FunctionKind::Freestanding, ReturnKind::AssumeNoResources)
}

fn request(name: &str, response: Sender<Response>) -> Request {
    AsyncRequest {
        package_name: String::new(),
        interface_name: String::new(),
        function_name: name.to_string(),
        function: function(),
        data: Vec::new(),
        response: ResponseGuard::new(response),
        active: ActiveCall {
            scheduler: "session",
            caller: 0,
            path: ExecutionPathId { serial: 1, depth: 0 },
        },
    }
}

fn asked(name: &str) -> (Request, Receiver<Response>) {
    let (response, result) = oneshot::channel();
    (request(name, response), result)
}

fn driver_error(response: Response) -> AsyncRuntimeError {
    match response {
        Err(DispatchError::RuntimeException(RuntimeFault::Driver(error))) => error,
        other => panic!("not a driver error: {other:?}"),
    }
}

fn received(receiver: Receiver<Response>) -> Response {
    let mut receiver = receiver;
    receive_response(match receiver.try_recv() {
        Ok(Some(response)) => Ok(response),
        Ok(None) => panic!("no answer came"),
        Err(cancelled) => Err(cancelled),
    })
}

fn send(answer: Option<Answer>) {
    let Some(answer) = answer else { panic!("nobody is answered") };
    assert!(answer.send().returned().is_none());
}

fn inner() -> (Inner, UnboundedReceiver<Request>) {
    let (channel, receiver) = RequestChannel::open();
    (AsyncInstanceInner::new(channel, "future"), receiver.into_receiver())
}

fn sent(receiver: &mut UnboundedReceiver<Request>) -> Vec<String> {
    let mut names = Vec::new();
    while let Ok(request) = receiver.try_recv() {
        names.push(request.function_name.clone());
    }
    names
}

fn failed(error: &AsyncRuntimeError) -> (Inner, UnboundedReceiver<Request>) {
    let (mut inner, receiver) = inner();
    let (told, dropped) = inner.fail(error);
    assert!(told.is_empty());
    assert_eq!(dropped, Some("future"));
    (inner, receiver)
}

#[test]
fn dropped_response_guard_reports_the_cancellation_error() {
    let (response, result) = oneshot::channel();
    drop(ResponseGuard::new(response));
    assert_eq!(driver_error(received(result)), AsyncRuntimeError::CallCancelled);
}

#[test]
fn disarmed_guard_reports_nothing() {
    let (response, result) = oneshot::channel();
    let mut guard = ResponseGuard::new(response);
    guard.disarm();
    drop(guard);
    assert_eq!(driver_error(received(result)), AsyncRuntimeError::MissingResponse);
}

#[test]
fn emptied_guard_leaves_the_caller_to_whoever_took_it() {
    let (response, result) = oneshot::channel();
    let mut guard = ResponseGuard::new(response);
    let Some(sender) = guard.take() else { panic!("a new guard is empty") };
    assert!(guard.take().is_none());
    drop(guard);
    assert!(Answer { sender, response: Ok(Value::U32(1)) }.send().returned().is_none());
    assert!(matches!(received(result), Ok(Value::U32(1))));
}

#[test]
fn answers_come_back_when_the_caller_has_gone() {
    let (response, result) = oneshot::channel();
    drop(result);
    let answer = Answer { sender: response, response: Ok(Value::U8(3)) };
    assert!(matches!(answer.send().returned(), Some(Ok(Value::U8(3)))));
}

#[test]
fn requests_are_answered_once() {
    let (request, result) = asked("call");
    send(request.respond(Ok(Value::Bool(true))));
    assert!(matches!(received(result), Ok(Value::Bool(true))));
    let (request, result) = asked("call");
    send(request.cancel());
    assert_eq!(driver_error(received(result)), AsyncRuntimeError::CallCancelled);
}

#[test]
fn failed_driver_rejects_later_calls_with_the_exact_error() {
    let expected = AsyncRuntimeError::StoreFailed("expected".to_string());
    let (mut inner, _receiver) = failed(&expected);
    let (request, result) = asked("call");
    let Err(refusal) = inner.enqueue(1, "session", request) else {
        panic!("a failed driver accepted a later call");
    };
    assert_eq!(driver_error(Err(refusal.error)), expected);
    assert!(refusal.dropped.is_none());
    send(refusal.answer);
    assert_eq!(driver_error(received(result)), expected);
    assert!(matches!(inner.driver(), DriverState::Failed(error) if *error == expected));
}

#[test]
fn stopped_driver_rejects_the_request_with_the_exact_error() {
    let (mut inner, receiver) = inner();
    drop(receiver);
    let (request, result) = asked("call");
    let Err(refusal) = inner.enqueue(1, "session", request) else {
        panic!("a stopped driver accepted the request");
    };
    assert_eq!(driver_error(Err(refusal.error)), AsyncRuntimeError::DriverStopped);
    assert!(matches!(refusal.dropped, Some(DriverState::Idle("future"))));
    send(refusal.answer);
    assert_eq!(driver_error(received(result)), AsyncRuntimeError::DriverStopped);
    assert!(matches!(inner.driver(), DriverState::Failed(AsyncRuntimeError::DriverStopped)));
}

#[test]
fn stopped_driver_cancels_the_sessions_that_waited() {
    let (mut inner, receiver) = inner();
    let (first, _first) = asked("first");
    assert!(matches!(inner.enqueue(1, "one", first), Ok(Admission::Start("future"))));
    let (waiting, cancelled) = asked("waiting");
    assert!(matches!(inner.enqueue(2, "two", waiting), Ok(Admission::Waiting)));
    drop(receiver);
    let (second, _second) = asked("second");
    let Err(refusal) = inner.enqueue(1, "one", second) else {
        panic!("a stopped driver accepted the request");
    };
    let Some(held) = refusal.dropped else { panic!("what the driver held is lost") };
    let (told, future) = held.give_up();
    assert!(future.is_none());
    assert_eq!(told.len(), 1);
    for answer in told {
        assert!(answer.send().returned().is_none());
    }
    assert_eq!(driver_error(received(cancelled)), AsyncRuntimeError::CallCancelled);
}

#[test]
fn dropped_refusal_cancels_the_sessions_that_waited() {
    let (mut inner, receiver) = inner();
    let (first, _first) = asked("first");
    assert!(inner.enqueue(1, "one", first).is_ok());
    let (waiting, cancelled) = asked("waiting");
    assert!(inner.enqueue(2, "two", waiting).is_ok());
    drop(receiver);
    let (second, _second) = asked("second");
    drop(inner.enqueue(1, "one", second));
    assert_eq!(driver_error(received(cancelled)), AsyncRuntimeError::CallCancelled);
}

#[test]
fn guards_say_their_last_word_once() {
    let (response, result) = oneshot::channel();
    let mut guard = ResponseGuard::new(response);
    send(guard.dismissed());
    assert!(guard.dismissed().is_none());
    assert_eq!(driver_error(received(result)), AsyncRuntimeError::CallCancelled);
    let (response, result) = oneshot::channel();
    let mut guard = ResponseGuard::new(response);
    guard.disarm();
    assert!(guard.dismissed().is_none());
    assert_eq!(driver_error(received(result)), AsyncRuntimeError::MissingResponse);
    let (request, result) = asked("call");
    send(request.dismiss());
    assert_eq!(driver_error(received(result)), AsyncRuntimeError::CallCancelled);
}

#[test]
fn cancelling_a_suspended_dispatch_releases_the_destination() {
    let (mut inner, mut receiver) = inner();
    let (first, dropped) = asked("wait");
    let Ok(Admission::Start(future)) = inner.enqueue(1, "first", first) else {
        panic!("an idle driver did not start");
    };
    let mut driver = AttachedDriver::new(future);
    assert!(matches!(driver.polled(&mut inner, None), DriverPoll::Pending));
    drop(dropped);
    assert!(matches!(driver.detach(&mut inner), Some(Release::Parked)));
    assert!(matches!(inner.driver(), DriverState::Idle("future")));
    assert_eq!(sent(&mut receiver), ["wait"]);

    let (second, result) = asked("wait");
    let Ok(Admission::Start("future")) = inner.enqueue(2, "second", second) else {
        panic!("the driver was not released");
    };
    let Ok(request) = receiver.try_recv() else { panic!("the second call was not sent") };
    let mut active = ActiveCalls::new();
    let asked_for = request.function;
    active.started(1, request);
    send(active.finished(1, &asked_for, vec![Value::U32(1)], Ok(())));
    assert!(matches!(received(result), Ok(Value::U32(1))));
}

#[test]
fn shared_async_destination_runs_both_suspended_calls() {
    let (mut inner, mut receiver) = inner();
    let (b, b_result) = asked("b");
    let (c, c_result) = asked("c");
    assert!(matches!(inner.enqueue(1, "session", b), Ok(Admission::Start("future"))));
    assert!(matches!(inner.enqueue(1, "session", c), Ok(Admission::Sent)));
    let mut driver = ConcurrentDriver::new();
    let mut active = ActiveCalls::new();
    let mut arrivals = 0;
    for step in [ConcurrentStep::Receive, ConcurrentStep::Race] {
        assert_eq!(driver.step(), step);
        let Ok(request) = receiver.try_recv() else { panic!("a call was not sent") };
        active.started(arrivals, request);
        driver.started();
        arrivals += 1;
    }
    assert_eq!((arrivals, driver.running), (2, 2));
    for task in 0..arrivals {
        assert_eq!(driver.step(), ConcurrentStep::Race);
        send(active.finished(task, &function(), vec![Value::U32(1)], Ok(())));
        driver.finished();
    }
    assert_eq!(driver.step(), ConcurrentStep::Receive);
    assert!(matches!(received(b_result), Ok(Value::U32(1))));
    assert!(matches!(received(c_result), Ok(Value::U32(1))));
}

#[test]
fn async_dispatch_reports_exact_session_errors() {
    let mut slot: SchedulerSlot<&str> = SchedulerSlot::new();
    let Err(error) = require_session(&slot) else {
        panic!("dispatch without a session found a scheduler");
    };
    assert_eq!(driver_error(Err(error)), AsyncRuntimeError::SessionUnavailable);

    let _guard = slot.attach("session");
    assert!(matches!(require_session(&slot), Ok(&"session")));
    let (mut inner, receiver) = inner();
    let mut scheduler: AsyncScheduler<(), Request, ()> = AsyncScheduler::new(HashMap::new());
    let path = scheduler.root_path();
    let Ok(dispatched) = dispatch_async(
        &mut scheduler,
        "session",
        DispatchContext::new(0, path),
        7,
        (),
        DispatchTarget {
            package_name: "test",
            interface_name: "root",
            function_name: "call",
            function: &function(),
        },
        Vec::new(),
    ) else {
        panic!("a dispatch without arguments was refused");
    };
    assert!(dispatched.told.is_none());
    let Some(call) = scheduler.take_call() else { panic!("the call was not scheduled") };
    assert_eq!(call.request.package_name, "test");
    assert_eq!(call.request.interface_name, "root");
    assert_eq!(call.request.function_name, "call");
    assert_eq!(call.request.active.caller, 7);
    assert_eq!(call.request.active.path, path);
    let admitted = inner.enqueue(1, "session", call.request);
    assert!(matches!(admitted, Ok(Admission::Start("future"))));
    drop(receiver);
    assert_eq!(driver_error(received(dispatched.receiver)), AsyncRuntimeError::MissingResponse);
}

#[test]
fn dispatch_refuses_what_may_not_pass() {
    let mut scheduler: AsyncScheduler<(), Request, ()> = AsyncScheduler::new(HashMap::new());
    let path = scheduler.root_path();
    let function = function();
    let refused = dispatch_async(
        &mut scheduler,
        "session",
        DispatchContext::new(0, path),
        7,
        (),
        DispatchTarget {
            package_name: "test",
            interface_name: "root",
            function_name: "call",
            function: &function,
        },
        vec![Value::ErrorContext],
    );
    assert!(matches!(
        refused,
        Err(DispatchError::UnsupportedType(name)) if name == "error-context"
    ));
    assert!(scheduler.take_call().is_none());
}

#[test]
fn ended_session_cancels_calls() {
    let mut scheduler: AsyncScheduler<(), Request, ()> = AsyncScheduler::new(HashMap::new());
    let path = scheduler.root_path();
    let function = function();
    let mut dispatch = |scheduler: &mut AsyncScheduler<(), Request, ()>| {
        let Ok(dispatched) = dispatch_async(
            scheduler,
            "session",
            DispatchContext::new(0, path),
            7,
            (),
            DispatchTarget {
                package_name: "test",
                interface_name: "root",
                function_name: "call",
                function: &function,
            },
            Vec::new(),
        ) else {
            panic!("a dispatch without arguments was refused");
        };
        dispatched
    };
    let waiting = [dispatch(&mut scheduler), dispatch(&mut scheduler)];
    let told = end_session(&mut scheduler);
    assert_eq!(told.len(), 2);
    for answer in told {
        assert!(answer.send().returned().is_none());
    }
    for dispatched in waiting {
        assert_eq!(driver_error(received(dispatched.receiver)), AsyncRuntimeError::CallCancelled);
    }
    assert!(end_session(&mut scheduler).is_empty());
    let late = dispatch(&mut scheduler);
    send(late.told);
    assert_eq!(driver_error(received(late.receiver)), AsyncRuntimeError::CallCancelled);
}

#[test]
fn calls_handed_over_by_an_ended_session_are_cancelled_once() {
    let mut scheduler: AsyncScheduler<(), Request, ()> = AsyncScheduler::new(HashMap::new());
    let mut results = Vec::new();
    for (depth, destination) in [(0, 1), (2, 1), (2, 3), (0, 1)] {
        let (request, result) = asked("call");
        let path = ExecutionPathId { serial: 1, depth };
        assert!(scheduler.schedule(5, path, destination, (), request).is_ok());
        results.push(result);
    }
    let told = cancel_waiting(scheduler.close());
    assert_eq!(told.len(), 4);
    for answer in told {
        assert!(answer.send().returned().is_none());
    }
    for result in results {
        assert_eq!(driver_error(received(result)), AsyncRuntimeError::CallCancelled);
    }
}

#[test]
fn attached_driver_records_its_exact_terminal_error() {
    let (mut inner, _receiver) = inner();
    let (owned, _owned) = asked("owned");
    let Ok(Admission::Start(future)) = inner.enqueue(1, "session", owned) else {
        panic!("an idle driver did not start");
    };
    let (waiting, told_later) = asked("waiting");
    assert!(matches!(inner.enqueue(2, "other", waiting), Ok(Admission::Waiting)));
    let expected = AsyncRuntimeError::StoreFailed("expected".to_string());
    let mut driver = AttachedDriver::new(future);
    assert_eq!(driver.future(), Some(&mut "future"));
    assert!(matches!(driver.polled(&mut inner, None), DriverPoll::Pending));
    let DriverPoll::Ended { told, dropped } = driver.polled(&mut inner, Some(expected.clone()))
    else {
        panic!("a driver that ended goes on");
    };
    assert_eq!(dropped, ["future"]);
    assert_eq!(told.len(), 1);
    for answer in told {
        assert!(answer.send().returned().is_none());
    }
    assert_eq!(driver_error(received(told_later)), expected);
    assert!(matches!(
        driver.polled(&mut inner, None),
        DriverPoll::Ended { told, dropped } if told.is_empty() && dropped.is_empty()
    ));
    assert!(driver.future().is_none());
    assert!(driver.detach(&mut inner).is_none());
    assert!(matches!(inner.driver(), DriverState::Failed(error) if *error == expected));
}

#[test]
fn sessions_get_the_driver_one_after_the_other() {
    let (mut inner, mut receiver) = inner();
    let (a, _a) = asked("a");
    let Ok(Admission::Start(future)) = inner.enqueue(1, "one", a) else {
        panic!("an idle driver did not start");
    };
    let mut driver = AttachedDriver::new(future);
    let calls = [(2, "two", "b1"), (3, "three", "c"), (2, "two", "b2")];
    let mut waiting = Vec::new();
    for (session, scheduler, name) in calls {
        let (request, result) = asked(name);
        waiting.push(result);
        assert!(matches!(inner.enqueue(session, scheduler, request), Ok(Admission::Waiting)));
    }
    let (more, _more) = asked("a2");
    assert!(matches!(inner.enqueue(1, "one", more), Ok(Admission::Sent)));
    assert_eq!(sent(&mut receiver), ["a", "a2"]);
    let Some(Release::HandOver { scheduler, future, told }) = driver.detach(&mut inner) else {
        panic!("nobody got the driver");
    };
    assert_eq!(scheduler, "two");
    assert!(told.is_empty());
    assert_eq!(sent(&mut receiver), ["b1", "b2"]);
    let Release::HandOver { scheduler, future, .. } = inner.release(future) else {
        panic!("nobody got the driver");
    };
    assert_eq!(scheduler, "three");
    assert_eq!(sent(&mut receiver), ["c"]);
    assert!(matches!(inner.release(future), Release::Parked));
    assert!(matches!(inner.driver(), DriverState::Idle("future")));
    assert!(matches!(inner.release("spare"), Release::Dropped("spare")));
}

#[test]
fn waiting_sessions_hear_that_the_driver_stopped() {
    let (mut inner, receiver) = inner();
    let (a, _a) = asked("a");
    assert!(inner.enqueue(1, "one", a).is_ok());
    let (b, result) = asked("b");
    assert!(inner.enqueue(2, "two", b).is_ok());
    drop(receiver);
    let Release::HandOver { told, .. } = inner.release("future") else {
        panic!("nobody got the driver");
    };
    for answer in told {
        assert!(answer.send().returned().is_none());
    }
    assert_eq!(driver_error(received(result)), AsyncRuntimeError::DriverStopped);
}

#[test]
fn failed_driver_is_not_taken_back() {
    let (mut inner, _receiver) = failed(&AsyncRuntimeError::DriverStopped);
    assert!(matches!(inner.release("future"), Release::Dropped("future")));
    assert!(matches!(inner.driver(), DriverState::Failed(AsyncRuntimeError::DriverStopped)));
}

#[test]
fn store_failure_reaches_pending_calls_as_the_exact_runtime_error()
-> Result<(), Box<dyn std::error::Error>> {
    let mut config = Config::new();
    config.concurrency_support(false);
    let engine = Engine::new(&config)?;
    let mut store = Store::new(&engine, ());
    let outcome = futures::executor::block_on(store.run_concurrent(async |_| ()));
    let Err(cause) = outcome else { panic!("a store without concurrency ran concurrently") };
    let expected = AsyncRuntimeError::StoreFailed(
        "cannot use `run_concurrent` when Config::concurrency_support disabled".to_string(),
    );
    let mut active = ActiveCalls::new();
    let (running, ran) = asked("running");
    active.started(1, running);
    let (waiting, waited) = asked("waiting");
    let failure = store_failed(cause, &mut active, vec![waiting]);
    assert_eq!(failure.error, expected);
    for answer in failure.running.into_iter().chain(failure.waiting) {
        assert!(answer.send().returned().is_none());
    }
    assert_eq!(driver_error(received(ran)), expected);
    assert_eq!(driver_error(received(waited)), expected);
    assert!(active.take().is_empty());
    Ok(())
}

const LOOKUP_COMPONENT: &str = r#"
(component
  (core module $m (func (export "get") (result i32) i32.const 42))
  (core instance $i (instantiate $m))
  (func $get (result u32) (canon lift (core func $i "get")))
  (type $number u32)
  (instance $root
    (export "get-value" (func $get))
    (export "not-a-function" (type $number)))
  (export "test:dispatch-error/root" (instance $root)))
"#;

fn instantiated(source: &str) -> Result<(Store<()>, Instance), wasmtime::Error> {
    let engine = Engine::default();
    let component = Component::new(&engine, source)?;
    let mut store = Store::new(&engine, ());
    let instance = Linker::new(&engine).instantiate(&mut store, &component)?;
    Ok((store, instance))
}

fn looked_up(
    store: &mut Store<()>,
    instance: &Instance,
    mut call: PluginCall,
) -> Result<(PluginCall, wasmtime::component::Func), DispatchError> {
    assert_eq!(call.step(), CallStep::FindInterface);
    let found = instance.get_export_index(&mut *store, None, call.exported_path());
    let interface = call.interface_found(found)?;
    assert_eq!(call.step(), CallStep::FindFunction);
    let found = instance.get_export_index(&mut *store, Some(&interface), call.exported_name());
    let index = call.function_found(found)?;
    assert_eq!(call.step(), CallStep::GetFunction);
    let function = call.function_resolved(instance.get_func(&mut *store, index))?;
    assert_eq!(call.step(), CallStep::Invoke);
    Ok((call, function))
}

const ASYNC_COMPONENT: &str = r#"
(component
  (core func $return (canon task.return (result u32)))
  (core module $m
    (import "" "return" (func $return (param i32)))
    (func (export "get") (result i32) (call $return (i32.const 42)) (i32.const 0))
    (func (export "callback") (param i32 i32 i32) (result i32) unreachable))
  (core instance $i (instantiate $m (with "" (instance (export "return" (func $return))))))
  (func $get async (result u32)
    (canon lift (core func $i "get") async (callback (core func $i "callback"))))
  (instance $root (export "get-value" (func $get)))
  (export "test:single-async/root" (instance $root)))
"#;

#[test]
fn driver_finishes_admitted_calls_before_reporting_channel_shutdown()
-> Result<(), Box<dyn std::error::Error>> {
    futures::executor::block_on(async {
        let mut config = Config::new();
        config.wasm_component_model_async(true);
        let engine = Engine::new(&config)?;
        let component = Component::new(&engine, ASYNC_COMPONENT)?;
        let mut store = Store::new(&engine, ());
        let instance = Linker::new(&engine).instantiate_async(&mut store, &component).await?;
        let mut driver = ConcurrentDriver::new();
        let mut active = ActiveCalls::new();
        assert_eq!(driver.step(), ConcurrentStep::Receive);
        let (request, result) = asked("get-value");
        let call = PluginCall::resolved(
            &NameTable::new(),
            "test:single-async",
            "root",
            &request.function_name,
            &request.function,
        );
        let Ok((call, func)) = looked_up(&mut store, &instance, call) else {
            panic!("an export was not found");
        };
        let mut buffer = call.buffer();
        assert!(matches!(buffer[..], [Value::Option(None)]));
        let mut results = [Val::Bool(false)];
        let (asked_for, outcome) = store
            .run_concurrent(async |accessor| {
                let started = accessor
                    .with(|mut access| func.start_call_concurrent(&mut access, &[], &mut results));
                let Ok((running, asked_for)) = active.attempted(9, request, started) else {
                    panic!("the engine refused the call");
                };
                driver.started();
                assert_eq!(driver.step(), ConcurrentStep::Race);
                driver.closed();
                assert_eq!(driver.step(), ConcurrentStep::AwaitCall);
                (asked_for, func.finish_call_concurrent(accessor, running).await)
            })
            .await?;
        let Val::U32(number) = results[0] else { panic!("unexpected result: {results:?}") };
        buffer[0] = Value::U32(number);
        send(active.finished(9, &asked_for, buffer, outcome));
        driver.finished();
        assert_eq!(driver.step(), ConcurrentStep::End);
        assert_eq!(driver.end(), AsyncRuntimeError::DriverStopped);
        assert!(matches!(received(result), Ok(Value::U32(42))));
        Ok(())
    })
}

#[test]
fn concurrent_driver_reports_exact_export_lookup_errors() -> Result<(), Box<dyn std::error::Error>> {
    let (mut store, instance) = instantiated(LOOKUP_COMPONENT)?;
    let remaps = NameTable::new();
    let mut lookup = |package: &str, name: &str| {
        let call = PluginCall::resolved(&remaps, package, "root", name, &function());
        looked_up(&mut store, &instance, call).map(|_| ())
    };
    assert!(matches!(
        lookup("missing", "get-value"),
        Err(DispatchError::InvalidInterfacePath(path)) if path == "missing/root"
    ));
    assert!(matches!(
        lookup("test:dispatch-error", "missing"),
        Err(DispatchError::InvalidFunction(name)) if name == "test:dispatch-error/root:missing"
    ));
    assert!(matches!(
        lookup("test:dispatch-error", "not-a-function"),
        Err(DispatchError::InvalidFunction(name))
            if name == "test:dispatch-error/root:not-a-function"
    ));
    assert!(lookup("test:dispatch-error", "get-value").is_ok());
    Ok(())
}

#[test]
fn limited_driver_reports_exact_channel_shutdown() {
    let mut driver: LimitedDriver<&str> = LimitedDriver::new();
    assert_eq!(driver.step(), LimitedStep::Receive);
    driver.received(None);
    assert_eq!(driver.step(), LimitedStep::End);
    assert_eq!(driver.end(), AsyncRuntimeError::RequestChannelClosed);
}

#[test]
fn limits_rule_out_calls_side_by_side() {
    assert!(!one_call_at_a_time(false, false));
    assert!(one_call_at_a_time(true, false));
    assert!(one_call_at_a_time(false, true));
}

#[test]
fn limited_driver_makes_one_call_after_the_other() {
    let mut driver = LimitedDriver::new();
    let (first, first_result) = asked("first");
    driver.received(Some(first));
    assert_eq!(driver.step(), LimitedStep::Start);
    let running = driver.start();
    assert_eq!(running.function_name, "first");
    drop(running);
    assert_eq!(driver.step(), LimitedStep::Race);
    let (second, second_result) = asked("second");
    driver.received(Some(second));
    assert_eq!(driver.step(), LimitedStep::Race);
    driver.received(None);
    assert_eq!(driver.step(), LimitedStep::AwaitCall);
    send(driver.finished(Ok(Value::U8(1))));
    assert!(matches!(received(first_result), Ok(Value::U8(1))));
    assert_eq!(driver.step(), LimitedStep::Start);
    assert_eq!(driver.start().function_name, "second");
    send(driver.finished(Ok(Value::U8(2))));
    assert!(matches!(received(second_result), Ok(Value::U8(2))));
    assert_eq!(driver.step(), LimitedStep::End);
    assert_eq!(driver.end(), AsyncRuntimeError::RequestChannelClosed);
}

const FUEL_COMPONENT: &str = r#"
(component
  (core module $m (func (export "burn") (result i32) i32.const 42))
  (core instance $i (instantiate $m))
  (func $burn (result u32) (canon lift (core func $i "burn")))
  (instance $root (export "burn" (func $burn)))
  (export "test:fuel/root" (instance $root)))
"#;

fn fuel_engine() -> Result<Engine, wasmtime::Error> {
    let mut config = Config::new();
    config.consume_fuel(true);
    Engine::new(&config)
}

fn prepared(
    store: &mut FuelledStore<()>,
    instance: &Instance,
    limiter: impl Fn(&str, &str) -> u64,
) -> (PluginCall, wasmtime::component::Func) {
    let begun = PluginCall::begin(
        &NameTable::new(),
        "test:fuel",
        "root",
        "burn",
        &function(),
        &[],
        true,
        false,
    );
    let Ok(mut call) = begun else { panic!("a call without arguments was refused") };
    assert_eq!(call.step(), CallStep::AskFuel);
    let fuel = limiter(call.canonical_path(), "burn");
    call.fuel_answered(fuel);
    assert_eq!(call.step(), CallStep::ApplyFuel(fuel));
    assert!(call.apply_fuel(store).is_ok());
    assert_eq!(store.store().get_fuel().ok(), Some(fuel));
    match looked_up(store.store_mut(), instance, call) {
        Ok(found) => found,
        Err(error) => panic!("an export was not found: {error:?}"),
    }
}

fn finished(call: PluginCall, results: &[Val], outcome: Result<(), wasmtime::Error>) -> Response {
    let Val::U32(number) = results[0] else { panic!("unexpected result: {results:?}") };
    call.finish(vec![Value::U32(number)], outcome)
}

#[test]
fn closure_receives_correct_interface_and_function() -> Result<(), wasmtime::Error> {
    let engine = fuel_engine()?;
    let component = Component::new(&engine, FUEL_COMPONENT)?;
    let mut store = FuelledStore::new(Store::new(&engine, ()));
    give_initial_fuel(&mut store, Some(100_000))?;
    let instance = Linker::new(&engine).instantiate(store.store_mut(), &component)?;
    let (call, func) = prepared(&mut store, &instance, |interface, function| {
        assert_eq!(interface, "test:fuel/root");
        assert_eq!(function, "burn");
        100_000
    });
    let mut results = [Val::Bool(false)];
    let outcome = func.call(store.store_mut(), &[], &mut results);
    match finished(call, &results, outcome) {
        Ok(Value::U32(42)) => Ok(()),
        other => panic!("Expected Ok( U32( 42 )), got: {other:#?}"),
    }
}

#[test]
fn async_instance_applies_the_per_call_fuel_limiter() -> Result<(), wasmtime::Error> {
    futures::executor::block_on(async {
        let engine = fuel_engine()?;
        let component = Component::new(&engine, FUEL_COMPONENT)?;
        let mut store = FuelledStore::new(Store::new(&engine, ()));
        give_initial_fuel(&mut store, Some(100_000))?;
        let instance = Linker::new(&engine).instantiate_async(store.store_mut(), &component).await?;
        let (call, func) = prepared(&mut store, &instance, |interface, function| {
            assert_eq!(interface, "test:fuel/root");
            assert_eq!(function, "burn");
            100_000
        });
        let mut results = [Val::Bool(false)];
        let outcome = func.call_async(store.store_mut(), &[], &mut results).await;
        assert!(matches!(finished(call, &results, outcome), Ok(Value::U32(42))));
        Ok(())
    })
}

#[test]
fn limiters_hear_the_path_that_was_requested() {
    let remaps = NameTable::from_entries(vec![("root".to_string(), Remap::found_as("legacy"))]);
    let begun = PluginCall::begin(&remaps, "test:fuel", "root", "burn", &function(), &[], true, true);
    let Ok(mut call) = begun else { panic!("a call without arguments was refused") };
    assert_eq!(call.canonical_path(), "test:fuel/root");
    assert_eq!(call.exported_path(), "test:fuel/legacy");
    assert_eq!(call.exported_name(), "burn");
    call.fuel_answered(100_000);
    assert!(call.fuel_applied(Ok(())).is_ok());
    assert_eq!(call.step(), CallStep::AskEpoch);
    call.ticks_answered(5);
    assert_eq!(call.step(), CallStep::ApplyEpoch(5));
    call.ticks_applied();
    assert_eq!(call.step(), CallStep::FindInterface);
}

#[test]
fn store_without_fuel_fails_the_call() {
    let mut store = FuelledStore::new(Store::new(&Engine::default(), ()));
    assert!(give_initial_fuel(&mut store, None).is_ok());
    assert!(give_initial_fuel(&mut store, Some(1)).is_err());
    let remaps = NameTable::new();
    let begun = PluginCall::begin(&remaps, "test:fuel", "root", "burn", &function(), &[], true, true);
    let Ok(mut call) = begun else { panic!("a call without arguments was refused") };
    call.fuel_answered(1);
    assert!(matches!(
        call.apply_fuel(&mut store),
        Err(DispatchError::RuntimeException(RuntimeFault::Engine(_)))
    ));
    assert_eq!(call.step(), CallStep::Failed);
}

#[test]
fn calls_with_barred_arguments_do_not_begin() {
    let begun = PluginCall::begin(
        &NameTable::new(),
        "test:fuel",
        "root",
        "burn",
        &function(),
        &[Value::List(vec![Value::ErrorContext])],
        true,
        true,
    );
    assert!(matches!(
        begun,
        Err(DispatchError::UnsupportedType(name)) if name == "error-context"
    ));
}

#[test]
fn exports_are_resolved_through_remaps() {
    let remaps = NameTable::from_entries(vec![(
        "root".to_string(),
        Remap::found_as("legacy-root").with_items(vec![("get".to_string(), "fetch".to_string())]),
    )]);
    let resolved = |interface: &str, name: &str| resolve_export(&remaps, "my:package", interface, name);
    assert_eq!(resolved("root", "get"), ("my:package/legacy-root".to_string(), "fetch".to_string()));
    assert_eq!(resolved("root", "put"), ("my:package/legacy-root".to_string(), "put".to_string()));
    assert_eq!(resolved("other", "get"), ("my:package/other".to_string(), "get".to_string()));
}

#[test]
fn results_follow_the_return_kind() {
    let void = Function::new(FunctionKind::Freestanding, ReturnKind::Void);
    assert!(result_buffer(&void).is_empty());
    assert_eq!(result_buffer(&function()).len(), 1);
    assert!(matches!(finish_call(&void, Vec::new(), Ok(())), Ok(Value::Option(None))));
    assert!(matches!(
        finish_call(&function(), vec![Value::U8(1), Value::U8(2)], Ok(())),
        Ok(Value::U8(2))
    ));
    assert!(matches!(
        finish_call(&function(), Vec::new(), Ok(())),
        Err(DispatchError::MissingResponse)
    ));
    assert!(matches!(
        finish_call(&function(), vec![Value::ErrorContext], Ok(())),
        Err(DispatchError::UnsupportedType(name)) if name == "error-context"
    ));
    let trapped = finish_call(&function(), Vec::new(), Err(wasmtime::Error::msg("boom")));
    let Err(DispatchError::RuntimeException(fault)) = trapped else {
        panic!("a trap was not reported");
    };
    assert_eq!(fault.message(), "boom");
}

#[test]
fn failures_reach_every_caller_in_order() {
    let error = AsyncRuntimeError::DriverStopped;
    let (a, a_result) = asked("a");
    let (b, b_result) = asked("b");
    for answer in fail_requests(vec![a, b], &error) {
        assert!(answer.send().returned().is_none());
    }
    assert_eq!(driver_error(received(a_result)), error);
    assert_eq!(driver_error(received(b_result)), error);
    let (sender, result) = oneshot::channel();
    let active = |response| ActiveCallRecord {
        active: ActiveCall {
            scheduler: "session",
            caller: 1,
            path: ExecutionPathId { serial: 1, depth: 0 },
        },
        response,
    };
    let told = fail_active_calls(vec![active(None), active(Some(sender))], &error);
    assert_eq!(told.len(), 1);
    for answer in told {
        assert!(answer.send().returned().is_none());
    }
    assert_eq!(driver_error(received(result)), error);
}

#[test]
fn calls_that_the_engine_refuses_are_answered() {
    let mut active = ActiveCalls::new();
    let (refused, result) = asked("refused");
    let Err(told) = active.attempted(1, refused, Err::<(), _>(wasmtime::Error::msg("no"))) else {
        panic!("a refused call runs");
    };
    send(told);
    let Err(DispatchError::RuntimeException(fault)) = received(result) else {
        panic!("a refused call was not reported");
    };
    assert_eq!(fault.message(), "no");
    assert!(active.take().is_empty());
    let (request, _result) = asked("running");
    assert!(matches!(active.attempted(2, request, Ok("call")), Ok(("call", asked)) if asked == function()));
    assert_eq!(active.take().len(), 1);
}

#[test]
fn finished_calls_that_nobody_waits_for_are_dropped() {
    let linkage: AsyncLinkage<&str> = AsyncLinkage::new();
    let _ = linkage.active_calls();
    let mut active: ActiveCalls<&str> = ActiveCalls::new();
    assert!(active.finished(3, &function(), Vec::new(), Ok(())).is_none());
    for task in 0..3 {
        let (request, _result) = asked("call");
        active.started(task, request);
    }
    assert_eq!(active.take().len(), 3);
    assert!(active.take().is_empty());
}
