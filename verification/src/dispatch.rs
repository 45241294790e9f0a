//! Sending a call on its way: from the arguments of a dispatch to a scheduled request.

use crate::channel::{connected, once};
use crate::error::{AsyncRuntimeError, DispatchError, RuntimeFault, runtime_error};
use crate::interface::Function;
use crate::path::{ExecutionPathId, PluginKey};
use crate::request::{
    ActiveCall, Answer, AsyncRequest, Response, ResponseGuard, last_word, tells,
};
use crate::scheduler::{
    AsyncScheduler, ScheduledCall, SchedulerSlot, SchedulerView, call_added,
    law_scheduled_call_joins_its_line, law_scheduler_keeps_order, ready_wf, waiting,
};
use crate::value::{
    Value, ensure_supported_values, first_barred_of, law_report_names_what_is_barred, reports,
    supported,
};
use futures::channel::oneshot::Receiver;
use vstd::prelude::*;

verus! {

/// Where a call comes from: the plugin that makes it and the path that it runs on.
#[derive(Clone, Copy, Debug, PartialEq, Eq, Structural)]
pub struct DispatchContext {
    pub caller: PluginKey,
    pub path: ExecutionPathId,
}

impl DispatchContext {
    /// A call of `caller` on `path`.
    pub fn new(caller: PluginKey, path: ExecutionPathId) -> (result: Self)
        ensures
            result == (DispatchContext { caller, path }),
    {
        DispatchContext { caller, path }
    }
}

/// What is called.
pub struct DispatchTarget<'a> {
    pub package_name: &'a str,
    pub interface_name: &'a str,
    pub function_name: &'a str,
    pub function: &'a Function,
}

/// A call that is on its way: where its response comes, and what its caller is told already.
pub struct Dispatched {
    pub receiver: Receiver<Response>,
    pub told: Option<Answer>,
}

/// `request` asks `destination` for what is called, with these arguments, and its caller has
/// not been answered.
pub open spec fn requested<S>(
    request: AsyncRequest<S>,
    scheduler: S,
    dispatch: DispatchContext,
    destination: PluginKey,
    target: DispatchTarget<'_>,
    data: Vec<Value>,
) -> bool {
    &&& request.package_name@ == target.package_name@
    &&& request.interface_name@ == target.interface_name@
    &&& request.function_name@ == target.function_name@
    &&& request.function == *target.function
    &&& request.data == data
    &&& request.response@.sender is Some
    &&& request.response@.armed
    &&& request.active == (ActiveCall { scheduler, caller: destination, path: dispatch.path })
}

/// A session whose scheduler is `before` takes up `request`.
pub open spec fn taken_up<T, S, D>(
    before: SchedulerView<T, AsyncRequest<S>, D>,
    after: SchedulerView<T, AsyncRequest<S>, D>,
    dispatch: DispatchContext,
    destination: PluginKey,
    handle: T,
    request: AsyncRequest<S>,
) -> bool {
    after == (SchedulerView {
        next_sequence: (before.next_sequence + 1) as u64,
        ready: call_added(
            before.ready,
            destination,
            dispatch.caller,
            dispatch.path,
            ScheduledCall { sequence: before.next_sequence, target: handle, request },
        ),
        ..before
    })
}

/// The scheduler of the session that a call is made in.
pub fn require_session<S>(slot: &SchedulerSlot<S>) -> (result: Result<&S, DispatchError>)
    ensures
        match result {
            Ok(scheduler) => slot@ == Some(*scheduler),
            Err(error) => slot@ is None && error == DispatchError::RuntimeException(
                RuntimeFault::Driver(AsyncRuntimeError::SessionUnavailable),
            ),
        },
{
    match slot.require() {
        Ok(scheduler) => Ok(scheduler),
        Err(_) => Err(runtime_error(AsyncRuntimeError::SessionUnavailable)),
    }
}

/// Sends a call on its way to the plugin `destination`, which `handle` leads to. Arguments that
/// may not pass between plugins are refused before anything else happens. A session that has
/// ended takes up nothing: the caller is told that the call was cancelled.
pub fn dispatch_async<T, S, D>(
    session: &mut AsyncScheduler<T, AsyncRequest<S>, D>,
    scheduler: S,
    dispatch: DispatchContext,
    destination: PluginKey,
    handle: T,
    target: DispatchTarget<'_>,
    data: Vec<Value>,
) -> (result: Result<Dispatched, DispatchError>)
    requires
        old(session).wf(),
        old(session)@.closed || first_barred_of(data@) is Some || old(session)@.next_sequence
            < u64::MAX,
    ensures
        final(session).wf(),
        match result {
            Err(error) => {
                &&& first_barred_of(data@) is Some
                &&& reports(Err(error), first_barred_of(data@))
                &&& final(session)@ == old(session)@
            },
            Ok(dispatched) => {
                &&& first_barred_of(data@) is None
                &&& if old(session)@.closed {
                    &&& final(session)@ == old(session)@
                    &&& dispatched.told matches Some(answer) && connected(
                        answer.sender,
                        dispatched.receiver,
                    ) && tells(answer, answer.sender, AsyncRuntimeError::CallCancelled)
                } else {
                    &&& dispatched.told is None
                    &&& exists|request: AsyncRequest<S>| #[trigger]
                        requested(request, scheduler, dispatch, destination, target, data)
                            && connected(request.response@.sender->0, dispatched.receiver)
                            && request.data@ == data@
                            && taken_up(
                            old(session)@,
                            final(session)@,
                            dispatch,
                            destination,
                            handle,
                            request,
                        )
                }
            },
        },
{
    if let Err(error) = ensure_supported_values(data.as_slice()) {
        return Err(error);
    }
    let (sender, receiver) = once();
    let request = AsyncRequest {
        package_name: target.package_name.to_string(),
        interface_name: target.interface_name.to_string(),
        function_name: target.function_name.to_string(),
        function: *target.function,
        data,
        response: ResponseGuard::new(sender),
        active: ActiveCall { scheduler, caller: destination, path: dispatch.path },
    };
    assert(requested(request, scheduler, dispatch, destination, target, data));
    let told = match session.schedule(
        dispatch.caller,
        dispatch.path,
        destination,
        handle,
        request,
    ) {
        Ok(_) => None,
        Err(refused) => refused.cancel(),
    };
    Ok(Dispatched { receiver, told })
}

/// The request that a session takes up asks for what the dispatch asks for: the function by the
/// names given, with exactly the arguments given, in order, on the path of the dispatch. Its
/// caller waits, and is told if the request is lost.
pub proof fn law_request_carries_the_call<S>(
    request: AsyncRequest<S>,
    scheduler: S,
    dispatch: DispatchContext,
    destination: PluginKey,
    target: DispatchTarget<'_>,
    data: Vec<Value>,
)
    requires
        requested(request, scheduler, dispatch, destination, target, data),
    ensures
        request.data@.len() == data@.len(),
        forall|i: int| 0 <= i < data@.len() ==> #[trigger] request.data@[i] == data@[i],
        request.package_name@ == target.package_name@,
        request.interface_name@ == target.interface_name@,
        request.function_name@ == target.function_name@,
        request.function == *target.function,
        request.active.scheduler == scheduler,
        request.active.caller == destination,
        request.active.path == dispatch.path,
        last_word(request.response@) is Some,
        last_word(request.response@) == request.response@.sender,
{
}

/// A request that a session takes up waits behind what its caller has waiting for the same plugin
/// on the same path, with the next number, and nothing else changes.
pub proof fn law_request_joins_its_line<T, S, D>(
    before: SchedulerView<T, AsyncRequest<S>, D>,
    after: SchedulerView<T, AsyncRequest<S>, D>,
    dispatch: DispatchContext,
    destination: PluginKey,
    handle: T,
    request: AsyncRequest<S>,
)
    requires
        ready_wf(before.ready),
        before.next_sequence < u64::MAX,
        taken_up(before, after, dispatch, destination, handle, request),
    ensures
        ({
            let earlier = waiting(before.ready, destination, dispatch.caller, dispatch.path);
            let now = waiting(after.ready, destination, dispatch.caller, dispatch.path);
            &&& now.len() == earlier.len() + 1
            &&& now.drop_last() == earlier
            &&& now.last().request == request
            &&& now.last().target == handle
            &&& now.last().sequence == before.next_sequence
        }),
        forall|d: PluginKey, c: PluginKey, p: ExecutionPathId|
            (d, c, p) != (destination, dispatch.caller, dispatch.path) ==> #[trigger] waiting(
                after.ready,
                d,
                c,
                p,
            ) == waiting(before.ready, d, c, p),
        after.next_sequence == before.next_sequence + 1,
        after.next_path == before.next_path,
        after.closed == before.closed,
        after.depths == before.depths,
        after.drivers == before.drivers,
{
    let call = ScheduledCall { sequence: before.next_sequence, target: handle, request };
    law_scheduled_call_joins_its_line(
        before.ready,
        destination,
        dispatch.caller,
        dispatch.path,
        call,
    );
    let earlier = waiting(before.ready, destination, dispatch.caller, dispatch.path);
    assert(earlier.push(call).drop_last() =~= earlier);
}

/// A call that is dispatched in an open session waits there with exactly the arguments that it was
/// made with, in order, and for the function that was named, as the last on its path.
pub proof fn law_dispatched_call_waits_with_its_arguments<T, S, D>(
    session: &mut AsyncScheduler<T, AsyncRequest<S>, D>,
    scheduler: S,
    dispatch: DispatchContext,
    destination: PluginKey,
    handle: T,
    target: DispatchTarget<'_>,
    data: Vec<Value>,
    result: Result<Dispatched, DispatchError>,
)
    requires
        old(session).wf(),
        !old(session)@.closed,
        old(session)@.next_sequence < u64::MAX,
        call_ensures(
            dispatch_async::<T, S, D>,
            (session, scheduler, dispatch, destination, handle, target, data),
            result,
        ),
    ensures
        result is Ok <==> forall|i: int| 0 <= i < data@.len() ==> supported(#[trigger] data@[i]),
        result is Err ==> final(session)@ == old(session)@,
        result matches Ok(dispatched) ==> {
            let earlier = waiting(
                old(session)@.ready,
                destination,
                dispatch.caller,
                dispatch.path,
            );
            let now = waiting(final(session)@.ready, destination, dispatch.caller, dispatch.path);
            let request = now.last().request;
            &&& dispatched.told is None
            &&& now.len() == earlier.len() + 1
            &&& now.drop_last() == earlier
            &&& now.last().target == handle
            &&& request.data@ == data@
            &&& request.package_name@ == target.package_name@
            &&& request.interface_name@ == target.interface_name@
            &&& request.function_name@ == target.function_name@
            &&& request.function == *target.function
            &&& request.active.scheduler == scheduler
            &&& request.active.caller == destination
            &&& request.active.path == dispatch.path
            &&& request.response@.armed
            &&& request.response@.sender is Some
            &&& connected(request.response@.sender->0, dispatched.receiver)
        },
{
    law_report_names_what_is_barred(
        data@,
        match result {
            Ok(_) => Ok(()),
            Err(error) => Err(error),
        },
    );
    if result is Ok {
        law_scheduler_keeps_order(*old(session));
        let receiver = result->Ok_0.receiver;
        let request = choose|request: AsyncRequest<S>| #[trigger]
            requested(request, scheduler, dispatch, destination, target, data) && connected(
                request.response@.sender->0,
                receiver,
            ) && request.data@ == data@ && taken_up(
                old(session)@,
                final(session)@,
                dispatch,
                destination,
                handle,
                request,
            );
        law_request_carries_the_call(request, scheduler, dispatch, destination, target, data);
        law_request_joins_its_line(
            old(session)@,
            final(session)@,
            dispatch,
            destination,
            handle,
            request,
        );
    }
}

/// A call that is dispatched in a session that has ended waits for nothing: its caller hears that
/// it was cancelled, and the session stays as it is.
pub proof fn law_dispatch_after_the_end_is_cancelled<T, S, D>(
    session: &mut AsyncScheduler<T, AsyncRequest<S>, D>,
    scheduler: S,
    dispatch: DispatchContext,
    destination: PluginKey,
    handle: T,
    target: DispatchTarget<'_>,
    data: Vec<Value>,
    result: Result<Dispatched, DispatchError>,
)
    requires
        old(session)@.closed,
        call_ensures(
            dispatch_async::<T, S, D>,
            (session, scheduler, dispatch, destination, handle, target, data),
            result,
        ),
    ensures
        final(session)@ == old(session)@,
        result matches Ok(dispatched) ==> (dispatched.told matches Some(answer) && connected(
            answer.sender,
            dispatched.receiver,
        ) && answer.response == Err::<Value, DispatchError>(
            DispatchError::RuntimeException(RuntimeFault::Driver(AsyncRuntimeError::CallCancelled)),
        )),
{
}

} // verus!
