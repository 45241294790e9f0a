//! How a driver works through the requests that reach it.

use crate::active::{
    ActiveCallRecord, ActiveCalls, drained, fail_active_calls, law_failed_store_leaves_nobody_waiting,
    record_callers,
};
use crate::driver::{all_told, callers_of, hears, law_whoever_waits_hears_of_the_error};
use crate::error::{AsyncRuntimeError, RuntimeFault, runtime_error};
use crate::request::{Answer, AsyncRequest, Response};
use futures::channel::oneshot::Sender;
use std::collections::VecDeque;
use vstd::prelude::*;

verus! {

/// Whether a driver makes one call at a time. It does where a limiter is asked before each
/// call, since what the limiter allows is allowed to one call.
pub fn one_call_at_a_time(fuel_limited: bool, epoch_limited: bool) -> (result: bool)
    ensures
        result == (fuel_limited || epoch_limited),
{
    fuel_limited || epoch_limited
}

/// What a driver does next that makes one call at a time.
#[derive(Clone, Copy, Debug, PartialEq, Eq, Structural)]
pub enum LimitedStep {
    /// It waits for a request.
    Receive,
    /// It starts the call that was asked for first.
    Start,
    /// It waits for its call, and for requests meanwhile. Requests come first.
    Race,
    /// It waits for its call.
    AwaitCall,
    /// It ends: nobody can ask for anything any more.
    End,
}

/// A driver that makes one call at a time, because limiters are asked before each.
pub struct LimitedDriver<S> {
    queued: VecDeque<AsyncRequest<S>>,
    running: bool,
    response: Option<Sender<Response>>,
    closed: bool,
}

/// A driver that makes one call at a time: the requests that wait, whether a call runs and
/// who waits for it, and whether the way for requests is closed.
#[verifier::ext_equal]
pub struct LimitedView<S> {
    pub queued: Seq<AsyncRequest<S>>,
    pub running: bool,
    pub response: Option<Sender<Response>>,
    pub closed: bool,
}

impl<S> View for LimitedDriver<S> {
    type V = LimitedView<S>;

    closed spec fn view(&self) -> LimitedView<S> {
        LimitedView {
            queued: self.queued@,
            running: self.running,
            response: self.response,
            closed: self.closed,
        }
    }
}

/// What such a driver does next.
pub open spec fn limited_step<S>(driver: LimitedView<S>) -> LimitedStep {
    if driver.running {
        if driver.closed {
            LimitedStep::AwaitCall
        } else {
            LimitedStep::Race
        }
    } else if driver.queued.len() > 0 {
        LimitedStep::Start
    } else if driver.closed {
        LimitedStep::End
    } else {
        LimitedStep::Receive
    }
}

/// A request has come, or the way for requests has closed.
pub open spec fn limited_received<S>(
    driver: LimitedView<S>,
    message: Option<AsyncRequest<S>>,
) -> LimitedView<S> {
    match message {
        Some(request) => LimitedView { queued: driver.queued.push(request), ..driver },
        None => LimitedView { closed: true, ..driver },
    }
}

/// The call that was asked for first has started.
pub open spec fn limited_started<S>(driver: LimitedView<S>) -> LimitedView<S> {
    LimitedView {
        queued: driver.queued.skip(1),
        running: true,
        response: driver.queued[0].response@.sender,
        ..driver
    }
}

/// The call that ran has ended.
pub open spec fn limited_finished<S>(driver: LimitedView<S>) -> LimitedView<S> {
    LimitedView { running: false, response: None, ..driver }
}

impl<S> LimitedDriver<S> {
    /// A driver that nothing has been asked of.
    pub fn new() -> (result: Self)
        ensures
            result@ == (LimitedView::<S> {
                queued: Seq::empty(),
                running: false,
                response: None,
                closed: false,
            }),
    {
        LimitedDriver { queued: VecDeque::new(), running: false, response: None, closed: false }
    }

    /// What comes next.
    pub fn step(&self) -> (result: LimitedStep)
        ensures
            result == limited_step(self@),
    {
        if self.running {
            if self.closed {
                LimitedStep::AwaitCall
            } else {
                LimitedStep::Race
            }
        } else if self.queued.len() > 0 {
            LimitedStep::Start
        } else if self.closed {
            LimitedStep::End
        } else {
            LimitedStep::Receive
        }
    }

    /// A request has come, or none can come any more.
    pub fn received(&mut self, message: Option<AsyncRequest<S>>)
        requires
            limited_step(old(self)@) == LimitedStep::Receive || limited_step(old(self)@)
                == LimitedStep::Race,
        ensures
            final(self)@ == limited_received(old(self)@, message),
    {
        match message {
            Some(request) => self.queued.push_back(request),
            None => {
                self.closed = true;
            },
        }
    }

    /// Hands out the request that came first, and keeps the way back to its caller.
    pub fn start(&mut self) -> (result: AsyncRequest<S>)
        requires
            limited_step(old(self)@) == LimitedStep::Start,
        ensures
            final(self)@ == limited_started(old(self)@),
            asks_for(result, old(self)@.queued[0]),
            result.response@.sender is None,
    {
        let ghost before = self.queued@;
        match self.queued.pop_front() {
            Some(request) => {
                assert(self.queued@ =~= before.skip(1));
                let mut response = request.response;
                self.response = response.take();
                self.running = true;
                AsyncRequest {
                    package_name: request.package_name,
                    interface_name: request.interface_name,
                    function_name: request.function_name,
                    function: request.function,
                    data: request.data,
                    response,
                    active: request.active,
                }
            },
            None => vstd::pervasive::unreached(),
        }
    }

    /// The call that ran has come back.
    pub fn finished(&mut self, response: Response) -> (result: Option<Answer>)
        requires
            limited_step(old(self)@) == LimitedStep::Race || limited_step(old(self)@)
                == LimitedStep::AwaitCall,
        ensures
            final(self)@ == limited_finished(old(self)@),
            match old(self)@.response {
                Some(sender) => result == Some(Answer { sender, response }),
                None => result is None,
            },
    {
        let mut held = None;
        core::mem::swap(&mut held, &mut self.response);
        self.running = false;
        match held {
            Some(sender) => Some(Answer { sender, response }),
            None => None,
        }
    }

    /// What the driver ends with.
    pub fn end(self) -> (result: AsyncRuntimeError)
        requires
            limited_step(self@) == LimitedStep::End,
        ensures
            result == AsyncRuntimeError::RequestChannelClosed,
    {
        AsyncRuntimeError::RequestChannelClosed
    }
}

/// Two requests ask for the same call.
pub open spec fn asks_for<S>(left: AsyncRequest<S>, right: AsyncRequest<S>) -> bool {
    &&& left.package_name == right.package_name
    &&& left.interface_name == right.interface_name
    &&& left.function_name == right.function_name
    &&& left.function == right.function
    &&& left.data == right.data
    &&& left.active == right.active
}

/// What happens to a driver that makes one call at a time.
pub enum LimitedEvent<S> {
    Received(Option<AsyncRequest<S>>),
    Started,
    Finished,
}

/// A history of such a driver: what it is after `events`.
pub open spec fn limited_run<S>(start: LimitedView<S>, events: Seq<LimitedEvent<S>>) -> LimitedView<
    S,
>
    decreases events.len(),
{
    if events.len() == 0 {
        start
    } else {
        let before = limited_run(start, events.drop_last());
        match events.last() {
            LimitedEvent::Received(message) => limited_received(before, message),
            LimitedEvent::Started => limited_started(before),
            LimitedEvent::Finished => limited_finished(before),
        }
    }
}

/// The requests that came in a history, in order.
pub open spec fn came<S>(events: Seq<LimitedEvent<S>>) -> Seq<AsyncRequest<S>>
    decreases events.len(),
{
    if events.len() == 0 {
        Seq::empty()
    } else {
        match events.last() {
            LimitedEvent::Received(Some(request)) => came(events.drop_last()).push(request),
            _ => came(events.drop_last()),
        }
    }
}

/// The requests whose calls started in a history, in order.
pub open spec fn served<S>(start: LimitedView<S>, events: Seq<LimitedEvent<S>>) -> Seq<
    AsyncRequest<S>,
>
    decreases events.len(),
{
    if events.len() == 0 {
        Seq::empty()
    } else {
        let earlier = served(start, events.drop_last());
        match events.last() {
            LimitedEvent::Started => earlier.push(
                limited_run(start, events.drop_last()).queued[0],
            ),
            _ => earlier,
        }
    }
}

/// A call starts only when the driver says so.
pub open spec fn starts_in_turn<S>(start: LimitedView<S>, events: Seq<LimitedEvent<S>>) -> bool
    decreases events.len(),
{
    events.len() == 0 || (starts_in_turn(start, events.drop_last()) && (events.last() is Started
        ==> limited_step(limited_run(start, events.drop_last())) == LimitedStep::Start))
}

/// Calls start in the order in which they were asked for, and none is lost: what started and
/// what waits is what came.
pub proof fn law_limited_driver_is_first_come_first_served<S>(
    start: LimitedView<S>,
    events: Seq<LimitedEvent<S>>,
)
    requires
        start.queued.len() == 0,
        starts_in_turn(start, events),
    ensures
        served(start, events) + limited_run(start, events).queued == came(events),
    decreases events.len(),
{
    if events.len() == 0 {
        assert(served(start, events) + start.queued =~= came(events));
    } else {
        law_limited_driver_is_first_come_first_served(start, events.drop_last());
        let before = limited_run(start, events.drop_last());
        let earlier = served(start, events.drop_last());
        match events.last() {
            LimitedEvent::Received(Some(request)) => {
                assert(earlier + before.queued.push(request) =~= (earlier + before.queued).push(
                    request,
                ));
            },
            LimitedEvent::Started => {
                assert(earlier.push(before.queued[0]) + before.queued.skip(1) =~= earlier
                    + before.queued);
            },
            _ => {},
        }
    }
}

/// What a driver does next that makes calls side by side.
#[derive(Clone, Copy, Debug, PartialEq, Eq, Structural)]
pub enum ConcurrentStep {
    /// It waits for a request.
    Receive,
    /// It waits for a request or for one of its calls. Requests come first.
    Race,
    /// It waits for one of its calls.
    AwaitCall,
    /// It ends.
    End,
}

/// A driver that makes calls side by side: how many run, and whether the way for requests is
/// closed.
#[derive(Clone, Copy, Debug, PartialEq, Eq, Structural)]
pub struct ConcurrentDriver {
    pub running: usize,
    pub closed: bool,
}

/// What such a driver does next.
pub open spec fn concurrent_step(driver: ConcurrentDriver) -> ConcurrentStep {
    if driver.running == 0 {
        if driver.closed {
            ConcurrentStep::End
        } else {
            ConcurrentStep::Receive
        }
    } else if driver.closed {
        ConcurrentStep::AwaitCall
    } else {
        ConcurrentStep::Race
    }
}

impl ConcurrentDriver {
    /// A driver that nothing has been asked of.
    pub fn new() -> (result: Self)
        ensures
            result == (ConcurrentDriver { running: 0, closed: false }),
    {
        ConcurrentDriver { running: 0, closed: false }
    }

    /// What comes next.
    pub fn step(&self) -> (result: ConcurrentStep)
        ensures
            result == concurrent_step(*self),
    {
        if self.running == 0 {
            if self.closed {
                ConcurrentStep::End
            } else {
                ConcurrentStep::Receive
            }
        } else if self.closed {
            ConcurrentStep::AwaitCall
        } else {
            ConcurrentStep::Race
        }
    }

    /// A request has started a call.
    pub fn started(&mut self)
        requires
            old(self).running < usize::MAX,
            !old(self).closed,
        ensures
            *final(self) == (ConcurrentDriver {
                running: (old(self).running + 1) as usize,
                ..*old(self)
            }),
    {
        self.running = self.running + 1;
    }

    /// No request can come any more.
    pub fn closed(&mut self)
        ensures
            *final(self) == (ConcurrentDriver { closed: true, ..*old(self) }),
    {
        self.closed = true;
    }

    /// A call has ended.
    pub fn finished(&mut self)
        requires
            old(self).running > 0,
        ensures
            *final(self) == (ConcurrentDriver {
                running: (old(self).running - 1) as usize,
                ..*old(self)
            }),
    {
        self.running = self.running - 1;
    }

    /// What the driver ends with, where the store did not fail.
    pub fn end(self) -> (result: AsyncRuntimeError)
        requires
            concurrent_step(self) == ConcurrentStep::End,
        ensures
            result == AsyncRuntimeError::DriverStopped,
    {
        AsyncRuntimeError::DriverStopped
    }
}

/// A driver does not end while a call that it took on still runs.
pub proof fn law_admitted_calls_finish_first(driver: ConcurrentDriver)
    requires
        driver.running > 0,
    ensures
        concurrent_step(driver) != ConcurrentStep::End,
        driver.closed ==> concurrent_step(driver) == ConcurrentStep::AwaitCall,
{
}

/// Tells every caller that waits for one of these requests of an error.
pub fn fail_requests<S>(requests: Vec<AsyncRequest<S>>, error: &AsyncRuntimeError) -> (result: Vec<
    Answer,
>)
    ensures
        all_told(result@, callers_of(requests@), *error),
{
    let ghost all = requests@;
    let mut told: Vec<Answer> = Vec::new();
    for request in it: requests
        invariant
            it.seq() == all,
            all_told(told@, callers_of(all.take(it.index())), *error),
    {
        assert(request == all[it.index()]);
        assert(all.take(it.index() + 1).drop_last() =~= all.take(it.index()));
        if let Some(answer) = request.respond(Err(runtime_error(error.clone()))) {
            told.push(answer);
        }
    }
    assert(all.take(all.len() as int) =~= all);
    told
}

/// What the failure of a store comes to: the error that the driver ends with, the answers to
/// callers whose calls ran, and those to callers whose requests had not been taken up.
pub struct StoreFailure {
    pub error: AsyncRuntimeError,
    pub running: Vec<Answer>,
    pub waiting: Vec<Answer>,
}

/// Ends a driver whose store failed. Every call that ran and every request that waited is
/// answered with the same error.
pub fn store_failed<S>(
    cause: wasmtime::Error,
    active_calls: &mut ActiveCalls<S>,
    waiting: Vec<AsyncRequest<S>>,
) -> (result: StoreFailure)
    ensures
        result.error matches AsyncRuntimeError::StoreFailed(text) && RuntimeFault::Engine(
            cause,
        ).says(text),
        final(active_calls)@ == Map::<u64, ActiveCallRecord<S>>::empty(),
        exists|tasks: Seq<u64>, records: Seq<ActiveCallRecord<S>>| #[trigger]
            drained(old(active_calls)@, tasks, records) && all_told(
                result.running@,
                record_callers(records),
                result.error,
            ),
        all_told(result.waiting@, callers_of(waiting@), result.error),
{
    let fault = RuntimeFault::Engine(cause);
    let error = AsyncRuntimeError::StoreFailed(fault.message());
    let active = active_calls.take();
    let running = fail_active_calls(active, &error);
    let waiting = fail_requests(waiting, &error);
    StoreFailure { error, running, waiting }
}

/// What a driver does next that makes one call at a time: while a call runs it waits for it, and
/// for requests too as long as any can come. While none runs it starts the first request that
/// waits, whether or not more can come, and only where none waits does it wait for one, or end if
/// none can come.
pub proof fn law_limited_driver_never_leaves_a_request_waiting<S>(driver: LimitedView<S>)
    ensures
        limited_step(driver) == LimitedStep::Start <==> !driver.running && driver.queued.len() > 0,
        limited_step(driver) == LimitedStep::Receive <==> !driver.running && driver.queued.len()
            == 0 && !driver.closed,
        limited_step(driver) == LimitedStep::End <==> !driver.running && driver.queued.len() == 0
            && driver.closed,
        limited_step(driver) == LimitedStep::Race <==> driver.running && !driver.closed,
        limited_step(driver) == LimitedStep::AwaitCall <==> driver.running && driver.closed,
{
}

/// As long as requests wait, every call that ends is followed by the start of the first of them.
pub proof fn law_ended_call_is_followed_by_the_next<S>(driver: LimitedView<S>)
    requires
        driver.running,
        driver.queued.len() > 0,
    ensures
        limited_step(limited_finished(driver)) == LimitedStep::Start,
        limited_started(limited_finished(driver)).queued == driver.queued.skip(1),
        limited_started(limited_finished(driver)).response == driver.queued[0].response@.sender,
{
}

/// What each event changes of such a driver, and that it changes nothing else.
pub proof fn law_limited_events_change_one_thing<S>(
    driver: LimitedView<S>,
    request: AsyncRequest<S>,
)
    ensures
        limited_received(driver, Some(request)) == (LimitedView {
            queued: driver.queued.push(request),
            ..driver
        }),
        limited_received(driver, None) == (LimitedView { closed: true, ..driver }),
        limited_finished(driver).queued == driver.queued,
        limited_finished(driver).closed == driver.closed,
        !limited_finished(driver).running,
        limited_finished(driver).response is None,
        limited_started(driver).running,
        limited_started(driver).closed == driver.closed,
{
}

/// Only requests, or that none can come any more.
pub open spec fn only_messages<S>(events: Seq<LimitedEvent<S>>) -> bool {
    forall|i: int| 0 <= i < events.len() ==> (#[trigger] events[i]) is Received
}

/// The answer to a call goes to the caller that asked for it: whatever comes while the call runs,
/// the driver keeps the way back to the caller of the request that it started.
pub proof fn law_answers_go_to_the_caller_that_asked<S>(
    driver: LimitedView<S>,
    events: Seq<LimitedEvent<S>>,
)
    requires
        limited_step(driver) == LimitedStep::Start,
        only_messages(events),
    ensures
        limited_run(limited_started(driver), events).running,
        limited_run(limited_started(driver), events).response
            == driver.queued[0].response@.sender,
    decreases events.len(),
{
    if events.len() > 0 {
        let earlier = events.drop_last();
        assert forall|i: int| 0 <= i < earlier.len() implies (#[trigger] earlier[i]) is Received by {
            assert(earlier[i] == events[i]);
        }
        law_answers_go_to_the_caller_that_asked(driver, earlier);
        assert(events.last() is Received);
    }
}

/// The request that a driver starts asks for what its caller asked for: the same function by the
/// same names, with the same arguments in the same order, for the same session, caller and path.
pub proof fn law_started_request_is_the_callers<S>(
    started: AsyncRequest<S>,
    request: AsyncRequest<S>,
)
    requires
        asks_for(started, request),
    ensures
        started.data@ == request.data@,
        started.package_name@ == request.package_name@,
        started.interface_name@ == request.interface_name@,
        started.function_name@ == request.function_name@,
        started.function == request.function,
        started.active == request.active,
{
}

/// What a driver does next that makes calls side by side: it takes requests as long as any can
/// come, waits for its calls as long as any run, and ends when neither is left.
pub proof fn law_concurrent_driver_takes_what_comes(driver: ConcurrentDriver)
    ensures
        concurrent_step(driver) == ConcurrentStep::Receive <==> driver.running == 0
            && !driver.closed,
        concurrent_step(driver) == ConcurrentStep::Race <==> driver.running > 0 && !driver.closed,
        concurrent_step(driver) == ConcurrentStep::AwaitCall <==> driver.running > 0
            && driver.closed,
        concurrent_step(driver) == ConcurrentStep::End <==> driver.running == 0 && driver.closed,
{
}

/// A driver makes one call at a time exactly where a limiter is asked, of either sort.
pub proof fn law_limiters_make_calls_one_at_a_time(
    fuel_limited: bool,
    epoch_limited: bool,
    result: bool,
)
    requires
        call_ensures(one_call_at_a_time, (fuel_limited, epoch_limited), result),
    ensures
        result <==> fuel_limited || epoch_limited,
{
}

/// A driver that is asked what comes next says what holds of it: it starts a call whenever a
/// request waits and none runs, whether or not more can come.
pub proof fn law_step_says_what_comes_next<S>(driver: &LimitedDriver<S>, result: LimitedStep)
    requires
        call_ensures(LimitedDriver::<S>::step, (driver,), result),
    ensures
        result == LimitedStep::Start <==> !driver@.running && driver@.queued.len() > 0,
        result == LimitedStep::Receive <==> !driver@.running && driver@.queued.len() == 0
            && !driver@.closed,
        result == LimitedStep::End <==> !driver@.running && driver@.queued.len() == 0
            && driver@.closed,
        result == LimitedStep::Race <==> driver@.running && !driver@.closed,
        result == LimitedStep::AwaitCall <==> driver@.running && driver@.closed,
{
    law_limited_driver_never_leaves_a_request_waiting(driver@);
}

/// A request that comes waits behind all that came before it. That none can come any more is
/// remembered, and what waits stays.
pub proof fn law_received_request_waits_last<S>(
    driver: &mut LimitedDriver<S>,
    message: Option<AsyncRequest<S>>,
)
    requires
        call_ensures(LimitedDriver::<S>::received, (driver, message), ()),
    ensures
        message matches Some(request) ==> final(driver)@.queued == old(driver)@.queued.push(request)
            && final(driver)@.closed == old(driver)@.closed,
        message is None ==> final(driver)@.queued == old(driver)@.queued && final(driver)@.closed,
        final(driver)@.running == old(driver)@.running,
        final(driver)@.response == old(driver)@.response,
{
}

/// A call that starts is the first that waits, with its arguments, and its caller is remembered.
pub proof fn law_started_call_is_the_first<S>(
    driver: &mut LimitedDriver<S>,
    result: AsyncRequest<S>,
)
    requires
        old(driver)@.queued.len() > 0,
        call_ensures(LimitedDriver::<S>::start, (driver,), result),
    ensures
        ({
            let first = old(driver)@.queued[0];
            &&& result.data@ == first.data@
            &&& result.package_name@ == first.package_name@
            &&& result.interface_name@ == first.interface_name@
            &&& result.function_name@ == first.function_name@
            &&& result.function == first.function
            &&& result.active == first.active
            &&& final(driver)@.response == first.response@.sender
        }),
        final(driver)@.running,
        final(driver)@.closed == old(driver)@.closed,
        final(driver)@.queued.len() == old(driver)@.queued.len() - 1,
        forall|i: int|
            1 <= i < old(driver)@.queued.len() ==> final(driver)@.queued[i - 1] == #[trigger] old(
                driver,
            )@.queued[i],
{
}

/// A call that comes back is answered to the caller that was remembered for it, with what it came
/// back with, and what waits stays.
pub proof fn law_finished_call_is_answered<S>(
    driver: &mut LimitedDriver<S>,
    response: Response,
    result: Option<Answer>,
)
    requires
        call_ensures(LimitedDriver::<S>::finished, (driver, response), result),
    ensures
        result is Some <==> old(driver)@.response is Some,
        result matches Some(answer) ==> old(driver)@.response == Some(answer.sender)
            && answer.response == response,
        !final(driver)@.running,
        final(driver)@.response is None,
        final(driver)@.queued == old(driver)@.queued,
        final(driver)@.closed == old(driver)@.closed,
{
}

/// A driver that makes calls side by side counts them: one that starts is one more, one that ends
/// is one fewer, and neither opens nor closes the way for requests.
pub proof fn law_running_calls_are_counted(driver: &mut ConcurrentDriver, other: &mut ConcurrentDriver)
    requires
        old(driver).running < usize::MAX,
        old(other).running > 0,
        call_ensures(ConcurrentDriver::started, (driver,), ()),
        call_ensures(ConcurrentDriver::finished, (other,), ()),
    ensures
        final(driver).running == old(driver).running + 1,
        final(driver).closed == old(driver).closed,
        final(other).running == old(other).running - 1,
        final(other).closed == old(other).closed,
{
}

/// That no request can come any more ends no call that runs.
pub proof fn law_closing_keeps_running_calls(driver: &mut ConcurrentDriver)
    requires
        call_ensures(ConcurrentDriver::closed, (driver,), ()),
    ensures
        final(driver).closed,
        final(driver).running == old(driver).running,
{
}

/// A store that fails leaves nobody waiting: the caller of every call that ran in it, and that of
/// every request that had not been taken up, hears of the error that the driver ends with.
pub proof fn law_store_failure_reaches_everybody<S>(
    cause: wasmtime::Error,
    active_calls: &mut ActiveCalls<S>,
    waiting: Vec<AsyncRequest<S>>,
    result: StoreFailure,
    task: u64,
    i: int,
)
    requires
        call_ensures(store_failed::<S>, (cause, active_calls, waiting), result),
    ensures
        result.error is StoreFailed,
        final(active_calls)@.dom() =~= Set::empty(),
        old(active_calls)@.contains_key(task) && old(active_calls)@[task].response is Some ==> hears(
            result.running@,
            old(active_calls)@[task].response->0,
            result.error,
        ),
        0 <= i < waiting@.len() && waiting@[i].response@.sender is Some ==> hears(
            result.waiting@,
            waiting@[i].response@.sender->0,
            result.error,
        ),
{
    let (tasks, records) = choose|tasks: Seq<u64>, records: Seq<ActiveCallRecord<S>>| #[trigger]
        drained(old(active_calls)@, tasks, records) && all_told(
            result.running@,
            record_callers(records),
            result.error,
        );
    if old(active_calls)@.contains_key(task) && old(active_calls)@[task].response is Some {
        law_failed_store_leaves_nobody_waiting(
            old(active_calls)@,
            tasks,
            records,
            result.running@,
            result.error,
            task,
        );
    }
    if 0 <= i < waiting@.len() && waiting@[i].response@.sender is Some {
        law_whoever_waits_hears_of_the_error(waiting@, result.waiting@, result.error, i);
    }
}

/// What a driver ends with tells the two sorts apart: one that makes one call at a time ends
/// because no request can come, one that makes calls side by side because it stopped.
pub proof fn law_drivers_end_with_their_own_errors<S>(
    limited: LimitedDriver<S>,
    concurrent: ConcurrentDriver,
    first: AsyncRuntimeError,
    second: AsyncRuntimeError,
)
    requires
        call_ensures(LimitedDriver::<S>::end, (limited,), first),
        call_ensures(ConcurrentDriver::end, (concurrent,), second),
    ensures
        first is RequestChannelClosed,
        second is DriverStopped,
        first != second,
{
}

} // verus!
