//! Requests to a plugin, and the answers that callers wait for.

use crate::channel::{Handed, deliver};
use crate::error::{AsyncRuntimeError, DispatchError, RuntimeFault, runtime_error};
use crate::interface::Function;
use crate::path::{ExecutionPathId, PluginKey};
use crate::value::Value;
use futures::channel::oneshot::Sender;
use vstd::prelude::*;

verus! {

/// What a call comes back with.
pub type Response = Result<Value, DispatchError>;

/// A response on its way to the caller that waits at `sender`.
pub struct Answer {
    pub sender: Sender<Response>,
    pub response: Response,
}

/// A response that reports a driver's error.
pub open spec fn failed_with(response: Response, error: AsyncRuntimeError) -> bool {
    response == Err::<Value, DispatchError>(
        DispatchError::RuntimeException(RuntimeFault::Driver(error)),
    )
}

/// `answer` tells the caller at `sender` of a driver's error.
pub open spec fn tells(answer: Answer, sender: Sender<Response>, error: AsyncRuntimeError) -> bool {
    answer.sender == sender && failed_with(answer.response, error)
}

impl Answer {
    /// An answer that reports a driver's error.
    pub fn failure(sender: Sender<Response>, error: AsyncRuntimeError) -> (result: Self)
        ensures
            tells(result, sender, error),
    {
        Answer { sender, response: Err(runtime_error(error)) }
    }

    /// Hands the response to the caller. The record says so, and holds the response where the
    /// caller has gone.
    pub fn send(self) -> (result: Handed<Response>)
        ensures
            result@.sender == self.sender,
            result@.value == self.response,
            result@.returned matches Some(returned) ==> returned == self.response,
    {
        deliver(self.sender, self.response)
    }
}

/// Holds the way back to a caller, and tells the caller that the call was cancelled if nobody
/// else answers. Once disarmed it tells the caller nothing.
pub struct ResponseGuard {
    sender: Option<Sender<Response>>,
    armed: bool,
    said: Option<Handed<Response>>,
}

/// Where a guard leads, whether it answers by itself, and what it handed over by itself.
#[verifier::ext_equal]
pub struct GuardView {
    pub sender: Option<Sender<Response>>,
    pub armed: bool,
    pub said: Option<Handed<Response>>,
}

impl View for ResponseGuard {
    type V = GuardView;

    closed spec fn view(&self) -> GuardView {
        GuardView { sender: self.sender, armed: self.armed, said: self.said }
    }
}

impl ResponseGuard {
    /// A guard on the way back to a caller.
    pub fn new(sender: Sender<Response>) -> (result: Self)
        ensures
            result@ == (GuardView { sender: Some(sender), armed: true, said: None }),
    {
        ResponseGuard { sender: Some(sender), armed: true, said: None }
    }

    /// From now on the caller hears nothing if the guard goes.
    pub fn disarm(&mut self)
        ensures
            final(self)@ == (GuardView { armed: false, ..old(self)@ }),
    {
        self.armed = false;
    }

    /// Takes the way back out of the guard.
    pub fn take(&mut self) -> (result: Option<Sender<Response>>)
        ensures
            result == old(self)@.sender,
            final(self)@ == (GuardView { sender: None, ..old(self)@ }),
        opens_invariants none
        no_unwind
    {
        let mut sender = None;
        core::mem::swap(&mut sender, &mut self.sender);
        sender
    }
}

/// The caller that a guard tells, when it goes, that the call was cancelled: the one that it
/// leads to, unless it is disarmed.
pub open spec fn last_word(guard: GuardView) -> Option<Sender<Response>> {
    if guard.armed {
        guard.sender
    } else {
        None
    }
}

/// `answer` is what a guard has to say when it goes.
pub open spec fn parting(answer: Option<Answer>, guard: GuardView) -> bool {
    match last_word(guard) {
        Some(sender) => answer matches Some(told) && tells(
            told,
            sender,
            AsyncRuntimeError::CallCancelled,
        ),
        None => answer is None,
    }
}

impl ResponseGuard {
    /// Empties the guard, and gives what it has to say as it goes.
    pub fn dismissed(&mut self) -> (result: Option<Answer>)
        ensures
            final(self)@ == (GuardView { sender: None, ..old(self)@ }),
            parting(result, old(self)@),
        opens_invariants none
        no_unwind
    {
        let armed = self.armed;
        match self.take() {
            Some(sender) => if armed {
                let response = Err(
                    DispatchError::RuntimeException(
                        RuntimeFault::Driver(AsyncRuntimeError::CallCancelled),
                    ),
                );
                Some(Answer { sender, response })
            } else {
                None
            },
            None => None,
        }
    }
}

impl Drop for ResponseGuard {
    /// Hands what the guard has to say to the caller: that the call was cancelled, unless the
    /// guard is empty or disarmed.
    fn drop(&mut self)
        ensures
            final(self)@.sender is None,
            match last_word(old(self)@) {
                Some(sender) => final(self)@.said matches Some(handed) && handed@.sender == sender
                    && failed_with(handed@.value, AsyncRuntimeError::CallCancelled),
                None => final(self)@.said == old(self)@.said,
            },
        opens_invariants none
        no_unwind
    {
        if let Some(answer) = self.dismissed() {
            self.said = Some(deliver(answer.sender, answer.response));
        }
    }
}

/// The session, the caller and the path that a call belongs to.
pub struct ActiveCall<S> {
    pub scheduler: S,
    pub caller: PluginKey,
    pub path: ExecutionPathId,
}

/// A call that a plugin is asked to make.
pub struct AsyncRequest<S> {
    pub package_name: String,
    pub interface_name: String,
    pub function_name: String,
    pub function: Function,
    pub data: Vec<Value>,
    pub response: ResponseGuard,
    pub active: ActiveCall<S>,
}

impl<S> AsyncRequest<S> {
    /// Answers the request, unless it has been answered.
    pub fn respond(self, response: Response) -> (result: Option<Answer>)
        ensures
            match self.response@.sender {
                Some(sender) => result == Some(Answer { sender, response }),
                None => result is None,
            },
    {
        let mut guard = self.response;
        match guard.take() {
            Some(sender) => Some(Answer { sender, response }),
            None => None,
        }
    }

    /// Answers that the call was cancelled, unless the request has been answered.
    pub fn cancel(self) -> (result: Option<Answer>)
        ensures
            match self.response@.sender {
                Some(sender) => result matches Some(answer) && tells(
                    answer,
                    sender,
                    AsyncRuntimeError::CallCancelled,
                ),
                None => result is None,
            },
    {
        self.respond(Err(runtime_error(AsyncRuntimeError::CallCancelled)))
    }

    /// Gives the request up, and gives what its guard has to say.
    pub fn dismiss(self) -> (result: Option<Answer>)
        ensures
            parting(result, self.response@),
    {
        let mut guard = self.response;
        guard.dismissed()
    }

    /// The request as it goes to a driver: if the driver drops it, the caller is told nothing.
    pub fn handed_over(self) -> (result: Self)
        ensures
            same_call(self, result),
            result.response@ == (GuardView { armed: false, ..self.response@ }),
    {
        let mut response = self.response;
        response.disarm();
        AsyncRequest {
            package_name: self.package_name,
            interface_name: self.interface_name,
            function_name: self.function_name,
            function: self.function,
            data: self.data,
            response,
            active: self.active,
        }
    }
}

/// Two requests ask for the same call and lead to the same caller.
pub open spec fn same_call<S>(left: AsyncRequest<S>, right: AsyncRequest<S>) -> bool {
    &&& left.package_name == right.package_name
    &&& left.interface_name == right.interface_name
    &&& left.function_name == right.function_name
    &&& left.function == right.function
    &&& left.data == right.data
    &&& left.response@.sender == right.response@.sender
    &&& left.active == right.active
}

/// The callers that are told that their calls were cancelled when `requests` are given up, in
/// order.
pub open spec fn last_words<S>(requests: Seq<AsyncRequest<S>>) -> Seq<Sender<Response>>
    decreases requests.len(),
{
    if requests.len() == 0 {
        Seq::empty()
    } else {
        let earlier = last_words(requests.drop_last());
        match last_word(requests.last().response@) {
            Some(sender) => earlier.push(sender),
            None => earlier,
        }
    }
}

/// What a caller receives whose wait has ended, with or without a response.
pub fn receive_response(received: Result<Response, futures::channel::oneshot::Canceled>) -> (result:
    Response)
    ensures
        match received {
            Ok(response) => result == response,
            Err(_) => failed_with(result, AsyncRuntimeError::MissingResponse),
        },
{
    match received {
        Ok(response) => response,
        Err(_) => Err(runtime_error(AsyncRuntimeError::MissingResponse)),
    }
}

/// A caller that hears of a driver's error hears it as the error of its call, and nobody else
/// does.
pub proof fn law_failure_reaches_its_caller(
    answer: Answer,
    sender: Sender<Response>,
    error: AsyncRuntimeError,
)
    requires
        tells(answer, sender, error),
    ensures
        answer.sender == sender,
        answer.response == Err::<Value, DispatchError>(
            DispatchError::RuntimeException(RuntimeFault::Driver(error)),
        ),
{
}

/// A guard that is armed and leads to a caller tells that caller that the call was cancelled. One
/// that is disarmed or empty tells nobody anything.
pub proof fn law_armed_guard_has_the_last_word(answer: Option<Answer>, guard: GuardView)
    requires
        parting(answer, guard),
    ensures
        answer is Some <==> guard.armed && guard.sender is Some,
        answer matches Some(told) ==> guard.sender == Some(told.sender) && told.response == Err::<
            Value,
            DispatchError,
        >(DispatchError::RuntimeException(RuntimeFault::Driver(AsyncRuntimeError::CallCancelled))),
{
}

/// A request that changes hands asks for what it asked for: the same function by the same names,
/// with the same arguments in the same order, for the same caller, session and path.
pub proof fn law_request_keeps_its_call<S>(left: AsyncRequest<S>, right: AsyncRequest<S>)
    requires
        same_call(left, right),
    ensures
        right.data@ == left.data@,
        right.package_name@ == left.package_name@,
        right.interface_name@ == left.interface_name@,
        right.function_name@ == left.function_name@,
        right.function == left.function,
        right.active == left.active,
        right.response@.sender == left.response@.sender,
{
}

/// Of requests that are given up, each one's caller has its own word, in the order of the
/// requests: none is left out, none comes twice, and no other caller is among them.
pub proof fn law_each_guard_has_its_word<S>(
    left: Seq<AsyncRequest<S>>,
    request: AsyncRequest<S>,
    right: Seq<AsyncRequest<S>>,
)
    ensures
        last_words(Seq::<AsyncRequest<S>>::empty()).len() == 0,
        last_words(left + seq![request] + right) == last_words(left) + (if request.response@.armed
            && request.response@.sender is Some {
            seq![request.response@.sender->0]
        } else {
            Seq::empty()
        }) + last_words(right),
    decreases right.len(),
{
    let all = left + seq![request] + right;
    if right.len() == 0 {
        assert(all.drop_last() =~= left);
        assert(all.last() == request);
        assert(last_words(right).len() == 0);
    } else {
        law_each_guard_has_its_word(left, request, right.drop_last());
        assert(all.drop_last() =~= left + seq![request] + right.drop_last());
        assert(all.last() == right.last());
    }
}


/// An answer goes to the caller of the request, with what it was given, and a request is answered
/// unless it has been.
pub proof fn law_response_goes_to_the_caller<S>(
    request: AsyncRequest<S>,
    response: Response,
    answered: Option<Answer>,
    cancelled: Option<Answer>,
)
    requires
        call_ensures(AsyncRequest::<S>::respond, (request, response), answered),
        call_ensures(AsyncRequest::<S>::cancel, (request,), cancelled),
    ensures
        answered is Some <==> request.response@.sender is Some,
        cancelled is Some <==> request.response@.sender is Some,
        answered matches Some(answer) ==> request.response@.sender == Some(answer.sender)
            && answer.response == response,
        cancelled matches Some(answer) ==> request.response@.sender == Some(answer.sender)
            && answer.response == Err::<Value, DispatchError>(
            DispatchError::RuntimeException(RuntimeFault::Driver(AsyncRuntimeError::CallCancelled)),
        ),
{
}

/// A caller receives the response that was sent, and where none can come any more, that it is
/// missing.
pub proof fn law_caller_receives_what_was_sent(
    received: Result<Response, futures::channel::oneshot::Canceled>,
    result: Response,
)
    requires
        call_ensures(receive_response, (received,), result),
    ensures
        received matches Ok(response) ==> result == response,
        received is Err ==> result == Err::<Value, DispatchError>(
            DispatchError::RuntimeException(
                RuntimeFault::Driver(AsyncRuntimeError::MissingResponse),
            ),
        ),
{
}

} // verus!
