//! The driver of an asynchronous plugin instance: which session it works for, which sessions
//! wait for it, and what becomes of their requests when it fails.

use crate::channel::{ChannelView, RequestChannel, RequestReceiver, unbounded, unbounded_send};
use crate::error::{AsyncRuntimeError, DispatchError, RuntimeFault, runtime_error};
use crate::request::{
    Answer, AsyncRequest, Response, last_word, last_words, parting, same_call, tells,
};
use futures::channel::oneshot::Sender;
use std::collections::VecDeque;
use vstd::prelude::*;

verus! {

/// A session that waits for a driver, with its requests.
pub struct PendingSession<S> {
    pub session: usize,
    pub scheduler: S,
    pub requests: VecDeque<AsyncRequest<S>>,
}

/// A session that waits for a driver, with its requests.
#[verifier::ext_equal]
pub struct PendingView<S> {
    pub session: usize,
    pub scheduler: S,
    pub requests: Seq<AsyncRequest<S>>,
}

impl<S> View for PendingSession<S> {
    type V = PendingView<S>;

    open spec fn view(&self) -> PendingView<S> {
        PendingView {
            session: self.session,
            scheduler: self.scheduler,
            requests: self.requests@,
        }
    }
}

/// Whom a driver works for. `F` is the future that drives the plugin's store.
pub enum DriverState<F, S> {
    /// Nobody. The future waits here.
    Idle(F),
    /// One session. Others wait for it to let go.
    Attached { owner: usize, waiting: VecDeque<PendingSession<S>> },
    /// Nobody any more.
    Failed(AsyncRuntimeError),
}

/// Whom a driver works for.
#[verifier::ext_equal]
pub enum DriverView<F, S> {
    Idle(F),
    Attached { owner: usize, waiting: Seq<PendingView<S>> },
    Failed(AsyncRuntimeError),
}

/// Waiting sessions as they are seen.
pub open spec fn pending<S>(waiting: Seq<PendingSession<S>>) -> Seq<PendingView<S>> {
    waiting.map_values(|session: PendingSession<S>| session@)
}

impl<F, S> View for DriverState<F, S> {
    type V = DriverView<F, S>;

    open spec fn view(&self) -> DriverView<F, S> {
        match self {
            DriverState::Idle(future) => DriverView::Idle(*future),
            DriverState::Attached { owner, waiting } => DriverView::Attached {
                owner: *owner,
                waiting: pending(waiting@),
            },
            DriverState::Failed(error) => DriverView::Failed(*error),
        }
    }
}

/// `session` waits at place `i`.
pub open spec fn waits_at<S>(waiting: Seq<PendingView<S>>, session: usize, i: int) -> bool {
    0 <= i < waiting.len() && waiting[i].session == session
}

/// `session` waits.
pub open spec fn is_waiting<S>(waiting: Seq<PendingView<S>>, session: usize) -> bool {
    exists|i: int| waits_at(waiting, session, i)
}

/// A session waits once, not for itself, and with a request.
pub open spec fn driver_wf<F, S>(driver: DriverView<F, S>) -> bool {
    driver matches DriverView::Attached { owner, waiting } ==> {
        &&& !is_waiting(waiting, owner)
        &&& forall|i: int, j: int|
            #![trigger waiting[i], waiting[j]]
            0 <= i < waiting.len() && 0 <= j < waiting.len() && waiting[i].session
                == waiting[j].session ==> i == j
        &&& forall|i: int| 0 <= i < waiting.len() ==> (#[trigger] waiting[i]).requests.len() > 0
    }
}

/// Who waits once `session` has one more request: it joins those that the session has, or the
/// session joins behind all others.
pub open spec fn waits_too<S>(
    waiting: Seq<PendingView<S>>,
    session: usize,
    scheduler: S,
    request: AsyncRequest<S>,
) -> Seq<PendingView<S>> {
    if is_waiting(waiting, session) {
        let i = choose|i: int| waits_at(waiting, session, i);
        waiting.update(
            i,
            PendingView { requests: waiting[i].requests.push(request), ..waiting[i] },
        )
    } else {
        waiting.push(PendingView { session, scheduler, requests: seq![request] })
    }
}

impl<M> RequestChannel<M> {
    /// A channel on which nothing has been sent, and the end that receives what is sent on it.
    pub fn open() -> (result: (Self, RequestReceiver<M>))
        ensures
            result.0@.sent == Seq::<M>::empty(),
            result.0@.returned == Seq::<M>::empty(),
            result.1@.source == result.0@.sender,
    {
        unbounded()
    }

    /// Sends a message. Where nobody receives any more it comes back.
    pub fn send(&mut self, message: M) -> (result: Result<(), M>)
        ensures
            match result {
                Ok(_) => final(self)@ == (ChannelView {
                    sent: old(self)@.sent.push(message),
                    ..old(self)@
                }),
                Err(returned) => returned == message && final(self)@ == (ChannelView {
                    returned: old(self)@.returned.push(message),
                    ..old(self)@
                }),
            },
    {
        unbounded_send(self, message)
    }
}

/// What an instance's driver holds, and every request that was sent to it.
#[verifier::ext_equal]
#[verifier::reject_recursive_types(S)]
pub struct InnerView<F, S> {
    pub channel: ChannelView<AsyncRequest<S>>,
    pub driver: DriverView<F, S>,
}

/// A plugin instance as its sessions share it.
#[verifier::reject_recursive_types(S)]
pub struct AsyncInstanceInner<F, S> {
    channel: RequestChannel<AsyncRequest<S>>,
    driver: DriverState<F, S>,
}

impl<F, S> View for AsyncInstanceInner<F, S> {
    type V = InnerView<F, S>;

    closed spec fn view(&self) -> InnerView<F, S> {
        InnerView { channel: self.channel@, driver: self.driver@ }
    }
}

/// `message` is `request` as it goes to a driver.
pub open spec fn handed<S>(request: AsyncRequest<S>, message: AsyncRequest<S>) -> bool {
    same_call(request, message) && !message.response@.armed
}

/// `after` is `before` and `request`, as it goes to a driver.
pub open spec fn one_more<S>(
    before: Seq<AsyncRequest<S>>,
    after: Seq<AsyncRequest<S>>,
    request: AsyncRequest<S>,
) -> bool {
    after.len() == before.len() + 1 && after.drop_last() == before && handed(request, after.last())
}

/// `request` went down the channel.
pub open spec fn sent_on<S>(
    before: ChannelView<AsyncRequest<S>>,
    after: ChannelView<AsyncRequest<S>>,
    request: AsyncRequest<S>,
) -> bool {
    one_more(before.sent, after.sent, request) && after == (ChannelView {
        sent: after.sent,
        ..before
    })
}

/// `request` was sent and came back.
pub open spec fn came_back<S>(
    before: ChannelView<AsyncRequest<S>>,
    after: ChannelView<AsyncRequest<S>>,
    request: AsyncRequest<S>,
) -> bool {
    one_more(before.returned, after.returned, request) && after == (ChannelView {
        returned: after.returned,
        ..before
    })
}

/// What became of a request that was let in.
pub enum Admission<F> {
    /// It was sent. The driver, which was idle, has to be attached to the session.
    Start(F),
    /// It was sent. The driver works for the session already.
    Sent,
    /// It waits for another session to let go of the driver.
    Waiting,
}

/// That a request was not let in: the error, the answer to the caller, and what the driver
/// held that nobody needs any more.
pub struct Refusal<F, S> {
    pub error: DispatchError,
    pub answer: Option<Answer>,
    pub dropped: Option<DriverState<F, S>>,
}

/// `answer` tells whoever waits for `request` of `error`, if anybody does.
pub open spec fn answers<S>(
    answer: Option<Answer>,
    request: AsyncRequest<S>,
    error: AsyncRuntimeError,
) -> bool {
    match request.response@.sender {
        Some(sender) => answer matches Some(told) && tells(told, sender, error),
        None => answer is None,
    }
}

/// `refusal` reports `error`.
pub open spec fn refused<F, S>(
    refusal: Refusal<F, S>,
    request: AsyncRequest<S>,
    error: AsyncRuntimeError,
) -> bool {
    &&& refusal.error == DispatchError::RuntimeException(RuntimeFault::Driver(error))
    &&& answers(refusal.answer, request, error)
}

/// Nobody receives what is sent to the driver: the request is refused, the driver has failed,
/// and what it held is handed out.
pub open spec fn refused_by_stopped<F, S>(
    before: InnerView<F, S>,
    after: InnerView<F, S>,
    refusal: Refusal<F, S>,
    request: AsyncRequest<S>,
) -> bool {
    &&& refused(refusal, request, AsyncRuntimeError::DriverStopped)
    &&& refusal.dropped matches Some(held) && held@ == before.driver
    &&& came_back(before.channel, after.channel, request)
    &&& after.driver == DriverView::<F, S>::Failed(AsyncRuntimeError::DriverStopped)
}

impl<F, S> DriverState<F, S> {
    /// Gives up what a driver held. Every request that waited is answered that it was cancelled.
    pub fn give_up(self) -> (result: (Vec<Answer>, Option<F>))
        ensures
            all_told(
                result.0@,
                last_words(kept_waiting(self@)),
                AsyncRuntimeError::CallCancelled,
            ),
            match self@ {
                DriverView::Idle(future) => result.1 == Some(future),
                _ => result.1 is None,
            },
    {
        let mut told: Vec<Answer> = Vec::new();
        match self {
            DriverState::Attached { owner: _, waiting } => {
                let ghost all = pending(waiting@);
                let mut left = waiting;
                let ghost mut done: int = 0;
                while left.len() > 0
                    invariant
                        0 <= done <= all.len(),
                        pending(left@) == all.skip(done),
                        all_told(
                            told@,
                            last_words(waiting_requests(all.take(done))),
                            AsyncRuntimeError::CallCancelled,
                        ),
                    decreases left.len(),
                {
                    let ghost seen = pending(left@);
                    assert(seen.len() == left@.len());
                    assert(all.take(done + 1).drop_last() =~= all.take(done));
                    if let Some(session) = left.pop_front() {
                        assert(seen[0] == session@);
                        assert(session@ == all[done]);
                        assert(pending(left@) =~= seen.skip(1));
                        assert(pending(left@) =~= all.skip(done + 1));
                        let ghost earlier = waiting_requests(all.take(done));
                        dismiss_all(session.requests, &mut told, Ghost(earlier));
                        proof {
                            done = done + 1;
                        }
                    }
                }
                assert(all.take(done) =~= all);
                (told, None)
            },
            DriverState::Idle(future) => (told, Some(future)),
            DriverState::Failed(_) => (told, None),
        }
    }
}

/// Gives up a line of requests, behind `earlier` ones that were given up already.
pub(crate) fn dismiss_all<S>(
    requests: VecDeque<AsyncRequest<S>>,
    told: &mut Vec<Answer>,
    Ghost(earlier): Ghost<Seq<AsyncRequest<S>>>,
)
    requires
        all_told(old(told)@, last_words(earlier), AsyncRuntimeError::CallCancelled),
    ensures
        all_told(
            final(told)@,
            last_words(earlier + requests@),
            AsyncRuntimeError::CallCancelled,
        ),
{
    let ghost all = requests@;
    let mut left = requests;
    let ghost mut done: int = 0;
    assert(earlier + all.take(0) =~= earlier);
    while left.len() > 0
        invariant
            0 <= done <= all.len(),
            left@ == all.skip(done),
            all_told(
                told@,
                last_words(earlier + all.take(done)),
                AsyncRuntimeError::CallCancelled,
            ),
        decreases left.len(),
    {
        assert((earlier + all.take(done + 1)).drop_last() =~= earlier + all.take(done));
        if let Some(request) = left.pop_front() {
            assert(request == all[done]);
            assert(left@ =~= all.skip(done + 1));
            if let Some(answer) = request.dismiss() {
                told.push(answer);
            }
            proof {
                done = done + 1;
            }
        }
    }
    assert(all.take(done) =~= all);
}

/// What letting in a request makes of an instance.
pub open spec fn let_in<F, S>(
    before: InnerView<F, S>,
    after: InnerView<F, S>,
    session: usize,
    scheduler: S,
    request: AsyncRequest<S>,
    result: Result<Admission<F>, Refusal<F, S>>,
) -> bool {
    match before.driver {
        DriverView::Idle(future) => match result {
            Ok(Admission::Start(started)) => {
                &&& started == future
                &&& sent_on(before.channel, after.channel, request)
                &&& after.driver == (DriverView::<F, S>::Attached {
                    owner: session,
                    waiting: Seq::empty(),
                })
            },
            Ok(_) => false,
            Err(refusal) => refused_by_stopped(before, after, refusal, request),
        },
        DriverView::Attached { owner, waiting } => if owner == session {
            match result {
                Ok(Admission::Sent) => sent_on(before.channel, after.channel, request) && after.driver
                    == before.driver,
                Ok(_) => false,
                Err(refusal) => refused_by_stopped(before, after, refusal, request),
            }
        } else {
            &&& result matches Ok(Admission::Waiting)
            &&& after.channel == before.channel
            &&& after.driver == (DriverView::<F, S>::Attached {
                owner,
                waiting: waits_too(waiting, session, scheduler, request),
            })
        },
        DriverView::Failed(error) => match result {
            Ok(_) => false,
            Err(refusal) => refused(refusal, request, error) && refusal.dropped is None && after
                == before,
        },
    }
}

/// Each request, in order, either went down the channel, or came back and was answered that
/// the driver stopped.
pub open spec fn sorted_out<S>(
    requests: Seq<AsyncRequest<S>>,
    before: ChannelView<AsyncRequest<S>>,
    after: ChannelView<AsyncRequest<S>>,
    told: Seq<Answer>,
) -> bool
    decreases requests.len(),
{
    if requests.len() == 0 {
        after == before && told.len() == 0
    } else {
        let request = requests.last();
        let earlier = requests.drop_last();
        let before_sending = ChannelView { sent: after.sent.drop_last(), ..after };
        let before_return = ChannelView { returned: after.returned.drop_last(), ..after };
        ||| after.sent.len() > 0 && handed(request, after.sent.last()) && sorted_out(
            earlier,
            before,
            before_sending,
            told,
        )
        ||| after.returned.len() > 0 && handed(request, after.returned.last())
            && match request.response@.sender {
            Some(sender) => told.len() > 0 && tells(
                told.last(),
                sender,
                AsyncRuntimeError::DriverStopped,
            ) && sorted_out(earlier, before, before_return, told.drop_last()),
            None => sorted_out(earlier, before, before_return, told),
        }
    }
}

/// What became of a driver that a session let go of.
pub enum Release<F, S> {
    /// It is idle.
    Parked,
    /// It has to be attached to the session of `scheduler`, which waited first. Requests that
    /// did not reach it have their answers.
    HandOver { scheduler: S, future: F, told: Vec<Answer> },
    /// It is not needed any more.
    Dropped(F),
}

/// What letting go of a driver makes of an instance.
pub open spec fn let_go<F, S>(
    before: InnerView<F, S>,
    after: InnerView<F, S>,
    future: F,
    result: Release<F, S>,
) -> bool {
    match before.driver {
        DriverView::Attached { owner, waiting } => if waiting.len() == 0 {
            &&& result is Parked
            &&& after == (InnerView { driver: DriverView::<F, S>::Idle(future), ..before })
        } else {
            &&& result matches Release::HandOver { scheduler, future: passed, told }
            &&& scheduler == waiting[0].scheduler
            &&& passed == future
            &&& after.driver == (DriverView::<F, S>::Attached {
                owner: waiting[0].session,
                waiting: waiting.skip(1),
            })
            &&& sorted_out(waiting[0].requests, before.channel, after.channel, told@)
        },
        _ => result == Release::<F, S>::Dropped(future) && after == before,
    }
}

/// Every request of the sessions that wait, in order.
pub open spec fn waiting_requests<S>(waiting: Seq<PendingView<S>>) -> Seq<AsyncRequest<S>>
    decreases waiting.len(),
{
    if waiting.len() == 0 {
        Seq::empty()
    } else {
        waiting_requests(waiting.drop_last()) + waiting.last().requests
    }
}

/// The callers that wait for answers to `requests`, in order.
pub open spec fn callers_of<S>(requests: Seq<AsyncRequest<S>>) -> Seq<Sender<Response>>
    decreases requests.len(),
{
    if requests.len() == 0 {
        Seq::empty()
    } else {
        let earlier = callers_of(requests.drop_last());
        match requests.last().response@.sender {
            Some(sender) => earlier.push(sender),
            None => earlier,
        }
    }
}

/// `told` tells every caller of `error`, in order.
pub open spec fn all_told(
    told: Seq<Answer>,
    callers: Seq<Sender<Response>>,
    error: AsyncRuntimeError,
) -> bool {
    told.len() == callers.len() && forall|i: int|
        0 <= i < told.len() ==> tells(#[trigger] told[i], callers[i], error)
}

/// The requests that a driver keeps waiting.
pub open spec fn kept_waiting<F, S>(driver: DriverView<F, S>) -> Seq<AsyncRequest<S>> {
    match driver {
        DriverView::Attached { waiting, .. } => waiting_requests(waiting),
        _ => Seq::empty(),
    }
}

/// Where `session` waits.
fn find_session<S>(waiting: &VecDeque<PendingSession<S>>, session: usize) -> (result: Option<usize>)
    ensures
        match result {
            Some(i) => waits_at(pending(waiting@), session, i as int),
            None => !is_waiting(pending(waiting@), session),
        },
{
    let mut i: usize = 0;
    while i < waiting.len()
        invariant
            i <= waiting@.len(),
            forall|j: int| 0 <= j < i ==> !#[trigger] waits_at(pending(waiting@), session, j),
        decreases waiting.len() - i,
    {
        if waiting[i].session == session {
            return Some(i);
        }
        assert(!waits_at(pending(waiting@), session, i as int));
        i = i + 1;
    }
    None
}

/// Adds a request to those that wait.
fn join_waiting<S>(
    waiting: &mut VecDeque<PendingSession<S>>,
    session: usize,
    scheduler: S,
    request: AsyncRequest<S>,
)
    requires
        forall|i: int, j: int|
            #![trigger pending(old(waiting)@)[i], pending(old(waiting)@)[j]]
            0 <= i < old(waiting)@.len() && 0 <= j < old(waiting)@.len() && pending(
                old(waiting)@,
            )[i].session == pending(old(waiting)@)[j].session ==> i == j,
    ensures
        pending(final(waiting)@) == waits_too(
            pending(old(waiting)@),
            session,
            scheduler,
            request,
        ),
{
    let ghost before = pending(waiting@);
    match find_session(waiting, session) {
        Some(i) => {
            proof {
                let place = choose|place: int| waits_at(before, session, place);
                assert(waits_at(before, session, place));
                assert(before[place].session == before[i as int].session);
            }
            let ghost held = waiting@;
            if let Some(found) = waiting.remove(i) {
                let mut requests = found.requests;
                requests.push_back(request);
                waiting.insert(
                    i,
                    PendingSession {
                        session: found.session,
                        scheduler: found.scheduler,
                        requests,
                    },
                );
            }
            assert(pending(waiting@) =~= waits_too(before, session, scheduler, request));
        },
        None => {
            let mut requests: VecDeque<AsyncRequest<S>> = VecDeque::new();
            requests.push_back(request);
            assert(requests@ =~= seq![request]);
            waiting.push_back(PendingSession { session, scheduler, requests });
            assert(pending(waiting@) =~= waits_too(before, session, scheduler, request));
        },
    }
}

proof fn lemma_waits_too_wf<F, S>(
    owner: usize,
    waiting: Seq<PendingView<S>>,
    session: usize,
    scheduler: S,
    request: AsyncRequest<S>,
)
    requires
        driver_wf(DriverView::<F, S>::Attached { owner, waiting }),
        owner != session,
    ensures
        driver_wf(
            DriverView::<F, S>::Attached {
                owner,
                waiting: waits_too(waiting, session, scheduler, request),
            },
        ),
{
    let after = waits_too(waiting, session, scheduler, request);
    if is_waiting(waiting, session) {
        let i = choose|i: int| waits_at(waiting, session, i);
        assert(waits_at(waiting, session, i));
        assert forall|j: int| !waits_at(after, owner, j) by {
            if waits_at(after, owner, j) {
                assert(waits_at(waiting, owner, j));
            }
        }
        assert forall|j: int, k: int|
            #![trigger after[j], after[k]]
            0 <= j < after.len() && 0 <= k < after.len() && after[j].session
                == after[k].session implies j == k by {
            assert(waiting[j].session == waiting[k].session);
        }
    } else {
        assert forall|j: int| !waits_at(after, owner, j) by {
            if waits_at(after, owner, j) && j < waiting.len() {
                assert(waits_at(waiting, owner, j));
            }
        }
        assert forall|j: int, k: int|
            #![trigger after[j], after[k]]
            0 <= j < after.len() && 0 <= k < after.len() && after[j].session
                == after[k].session implies j == k by {
            if j < waiting.len() && k < waiting.len() {
                assert(waiting[j].session == waiting[k].session);
            } else if j < waiting.len() {
                assert(waits_at(waiting, session, j));
            } else if k < waiting.len() {
                assert(waits_at(waiting, session, k));
            }
        }
    }
}

/// Answers every request of a line.
fn tell_all<S>(requests: VecDeque<AsyncRequest<S>>, error: &AsyncRuntimeError, told: &mut Vec<Answer>)
    ensures
        ({
            let callers = callers_of(requests@);
            &&& final(told)@.len() == old(told)@.len() + callers.len()
            &&& final(told)@.take(old(told)@.len() as int) == old(told)@
            &&& all_told(final(told)@.skip(old(told)@.len() as int), callers, *error)
        }),
{
    let ghost all = requests@;
    let ghost start = told@;
    let mut left = requests;
    let ghost mut done: int = 0;
    assert(told@.take(start.len() as int) =~= start);
    while left.len() > 0
        invariant
            0 <= done <= all.len(),
            left@ == all.skip(done),
            told@.len() == start.len() + callers_of(all.take(done)).len(),
            told@.take(start.len() as int) == start,
            all_told(told@.skip(start.len() as int), callers_of(all.take(done)), *error),
        decreases left.len(),
    {
        let ghost before = told@;
        assert(all.take(done + 1).drop_last() =~= all.take(done));
        if let Some(request) = left.pop_front() {
            assert(request == all[done]);
            assert(left@ =~= all.skip(done + 1));
            if let Some(answer) = request.respond(Err(runtime_error(error.clone()))) {
                told.push(answer);
                assert(told@.take(start.len() as int) =~= start);
                assert(told@.skip(start.len() as int) =~= before.skip(start.len() as int).push(
                    answer,
                ));
            }
            proof {
                done = done + 1;
            }
        }
    }
    assert(all.take(done) =~= all);
}

impl<F, S> AsyncInstanceInner<F, S> {
    /// A session waits once, not for itself, and with a request.
    pub closed spec fn wf(&self) -> bool {
        driver_wf(self@.driver)
    }

    /// An instance that nobody uses: the way to its driver, and the future that drives it.
    pub fn new(channel: RequestChannel<AsyncRequest<S>>, future: F) -> (result: Self)
        ensures
            result.wf(),
            result@ == (InnerView::<F, S> {
                channel: channel@,
                driver: DriverView::Idle(future),
            }),
    {
        AsyncInstanceInner { channel, driver: DriverState::Idle(future) }
    }

    /// What the driver is doing.
    pub fn driver(&self) -> (result: &DriverState<F, S>)
        ensures
            result@ == self@.driver,
    {
        &self.driver
    }

    /// Sends a request to the driver, which is in the state `attached` if it still receives.
    fn send(
        &mut self,
        previous: DriverState<F, S>,
        request: AsyncRequest<S>,
    ) -> (result: Result<DriverState<F, S>, Refusal<F, S>>)
        ensures
            match result {
                Ok(held) => held == previous && sent_on(
                    old(self)@.channel,
                    final(self)@.channel,
                    request,
                ) && final(self)@.driver == old(self)@.driver,
                Err(refusal) => refused(refusal, request, AsyncRuntimeError::DriverStopped) && (
                refusal.dropped matches Some(held) && held == previous) && came_back(
                    old(self)@.channel,
                    final(self)@.channel,
                    request,
                ) && final(self)@.driver == DriverView::<F, S>::Failed(
                    AsyncRuntimeError::DriverStopped,
                ),
            },
    {
        let ghost before = self@.channel;
        match self.channel.send(request.handed_over()) {
            Ok(_) => {
                assert(self@.channel.sent.drop_last() =~= before.sent);
                Ok(previous)
            },
            Err(request) => {
                assert(self@.channel.returned.drop_last() =~= before.returned);
                self.driver = DriverState::Failed(AsyncRuntimeError::DriverStopped);
                Err(
                    Refusal {
                        error: runtime_error(AsyncRuntimeError::DriverStopped),
                        answer: request.respond(
                            Err(runtime_error(AsyncRuntimeError::DriverStopped)),
                        ),
                        dropped: Some(previous),
                    },
                )
            },
        }
    }

    /// Lets in a request of `session`. It is sent at once if the driver is idle or works for
    /// the session, and waits if the driver works for another one. A driver that has failed,
    /// or that nobody polls any more, refuses it.
    pub fn enqueue(&mut self, session: usize, scheduler: S, request: AsyncRequest<S>) -> (result:
        Result<Admission<F>, Refusal<F, S>>)
        requires
            old(self).wf(),
        ensures
            final(self).wf(),
            let_in(old(self)@, final(self)@, session, scheduler, request, result),
    {
        let ghost before = self@;
        let mut previous = DriverState::Failed(AsyncRuntimeError::DriverStopped);
        core::mem::swap(&mut previous, &mut self.driver);
        match previous {
            DriverState::Idle(future) => {
                match self.send(DriverState::Idle(future), request) {
                    Ok(DriverState::Idle(future)) => {
                        self.driver = DriverState::Attached {
                            owner: session,
                            waiting: VecDeque::new(),
                        };
                        assert(self@.driver->waiting =~= Seq::empty());
                        Ok(Admission::Start(future))
                    },
                    Ok(other) => {
                        self.driver = other;
                        Ok(Admission::Sent)
                    },
                    Err(refusal) => Err(refusal),
                }
            },
            DriverState::Attached { owner, waiting } => {
                if owner == session {
                    match self.send(DriverState::Attached { owner, waiting }, request) {
                        Ok(held) => {
                            self.driver = held;
                            Ok(Admission::Sent)
                        },
                        Err(refusal) => Err(refusal),
                    }
                } else {
                    let mut waiting = waiting;
                    proof {
                        lemma_waits_too_wf::<F, S>(
                            owner,
                            before.driver->waiting,
                            session,
                            scheduler,
                            request,
                        );
                    }
                    join_waiting(&mut waiting, session, scheduler, request);
                    self.driver = DriverState::Attached { owner, waiting };
                    Ok(Admission::Waiting)
                }
            },
            DriverState::Failed(error) => {
                let answer = request.respond(Err(runtime_error(error.clone())));
                let reported = runtime_error(error.clone());
                self.driver = DriverState::Failed(error);
                Err(Refusal { error: reported, answer, dropped: None })
            },
        }
    }

    /// Takes back the driver that a session lets go of. The session that waited first gets it.
    pub fn release(&mut self, future: F) -> (result: Release<F, S>)
        requires
            old(self).wf(),
        ensures
            final(self).wf(),
            let_go(old(self)@, final(self)@, future, result),
    {
        let ghost before = self@;
        let mut previous = DriverState::Failed(AsyncRuntimeError::DriverStopped);
        core::mem::swap(&mut previous, &mut self.driver);
        match previous {
            DriverState::Attached { owner, waiting } => {
                let mut waiting = waiting;
                let ghost was = pending(waiting@);
                match waiting.pop_front() {
                    None => {
                        self.driver = DriverState::Idle(future);
                        Release::Parked
                    },
                    Some(first) => {
                        assert(pending(waiting@) =~= was.skip(1));
                        assert(was[0] == first@);
                        proof {
                            let rest = was.skip(1);
                            assert forall|i: int| !waits_at(rest, was[0].session, i) by {
                                if waits_at(rest, was[0].session, i) {
                                    assert(was[i + 1].session == was[0].session);
                                }
                            }
                            assert forall|i: int, j: int|
                                #![trigger rest[i], rest[j]]
                                0 <= i < rest.len() && 0 <= j < rest.len() && rest[i].session
                                    == rest[j].session implies i == j by {
                                assert(was[i + 1].session == was[j + 1].session);
                            }
                        }
                        self.driver = DriverState::Attached { owner: first.session, waiting };
                        let told = self.send_all(first.requests);
                        Release::HandOver { scheduler: first.scheduler, future, told }
                    },
                }
            },
            DriverState::Failed(error) => {
                self.driver = DriverState::Failed(error);
                Release::Dropped(future)
            },
            DriverState::Idle(idle) => {
                self.driver = DriverState::Idle(idle);
                Release::Dropped(future)
            },
        }
    }

    /// Sends requests to the driver, and answers those that it does not receive.
    fn send_all(&mut self, requests: VecDeque<AsyncRequest<S>>) -> (result: Vec<Answer>)
        ensures
            final(self)@.driver == old(self)@.driver,
            sorted_out(requests@, old(self)@.channel, final(self)@.channel, result@),
    {
        let ghost all = requests@;
        let ghost start = self@.channel;
        let mut left = requests;
        let mut told: Vec<Answer> = Vec::new();
        let ghost mut done: int = 0;
        while left.len() > 0
            invariant
                0 <= done <= all.len(),
                left@ == all.skip(done),
                self@.driver == old(self)@.driver,
                sorted_out(all.take(done), start, self@.channel, told@),
            decreases left.len(),
        {
            let ghost middle = self@.channel;
            let ghost answered = told@;
            assert(all.take(done + 1).drop_last() =~= all.take(done));
            if let Some(request) = left.pop_front() {
                assert(request == all[done]);
                assert(left@ =~= all.skip(done + 1));
                match self.channel.send(request.handed_over()) {
                    Ok(_) => {
                        assert(ChannelView {
                            sent: self@.channel.sent.drop_last(),
                            ..self@.channel
                        } =~= middle);
                    },
                    Err(request) => {
                        assert(ChannelView {
                            returned: self@.channel.returned.drop_last(),
                            ..self@.channel
                        } =~= middle);
                        if let Some(answer) = request.respond(
                            Err(runtime_error(AsyncRuntimeError::DriverStopped)),
                        ) {
                            told.push(answer);
                            assert(told@.drop_last() =~= answered);
                        }
                    },
                }
                proof {
                    done = done + 1;
                }
            }
        }
        assert(all.take(done) =~= all);
        told
    }

    /// Ends the driver for good. Every request that waits is answered.
    pub fn fail(&mut self, error: &AsyncRuntimeError) -> (result: (Vec<Answer>, Option<F>))
        requires
            old(self).wf(),
        ensures
            final(self).wf(),
            final(self)@ == (InnerView {
                driver: DriverView::<F, S>::Failed(*error),
                ..old(self)@
            }),
            all_told(result.0@, callers_of(kept_waiting(old(self)@.driver)), *error),
            match old(self)@.driver {
                DriverView::Idle(future) => result.1 == Some(future),
                _ => result.1 is None,
            },
    {
        let ghost before = self@;
        let mut previous = DriverState::Failed(error.clone());
        core::mem::swap(&mut previous, &mut self.driver);
        let mut told: Vec<Answer> = Vec::new();
        match previous {
            DriverState::Attached { owner: _, waiting } => {
                let ghost all = pending(waiting@);
                let mut left = waiting;
                let ghost mut done: int = 0;
                while left.len() > 0
                    invariant
                        0 <= done <= all.len(),
                        pending(left@) == all.skip(done),
                        all_told(
                            told@,
                            callers_of(waiting_requests(all.take(done))),
                            *error,
                        ),
                    decreases left.len(),
                {
                    let ghost answered = told@;
                    let ghost seen = pending(left@);
                    assert(seen.len() == left@.len());
                    assert(all.take(done + 1).drop_last() =~= all.take(done));
                    if let Some(session) = left.pop_front() {
                        assert(seen[0] == session@);
                        assert(session@ == all[done]);
                        assert(pending(left@) =~= seen.skip(1));
                        assert(pending(left@) =~= all.skip(done + 1));
                        tell_all(session.requests, error, &mut told);
                        proof {
                            let earlier = waiting_requests(all.take(done));
                            lemma_callers_of_both(earlier, session@.requests);
                            let callers = callers_of(earlier + session@.requests);
                            assert forall|i: int| 0 <= i < told@.len() implies tells(
                                #[trigger] told@[i],
                                callers[i],
                                *error,
                            ) by {
                                if i < answered.len() {
                                    assert(told@[i] == told@.take(answered.len() as int)[i]);
                                } else {
                                    assert(told@[i] == told@.skip(answered.len() as int)[i
                                        - answered.len()]);
                                }
                            }
                            done = done + 1;
                        }
                    }
                }
                assert(all.take(done) =~= all);
                (told, None)
            },
            DriverState::Idle(future) => (told, Some(future)),
            DriverState::Failed(_) => (told, None),
        }
    }
}

proof fn lemma_callers_of_both<S>(left: Seq<AsyncRequest<S>>, right: Seq<AsyncRequest<S>>)
    ensures
        callers_of(left + right) == callers_of(left) + callers_of(right),
    decreases right.len(),
{
    if right.len() == 0 {
        assert(left + right =~= left);
        assert(callers_of(left) + callers_of(right) =~= callers_of(left));
    } else {
        assert((left + right).drop_last() =~= left + right.drop_last());
        lemma_callers_of_both(left, right.drop_last());
        assert(callers_of(left + right) =~= callers_of(left) + callers_of(right));
    }
}

/// While a driver works for one session, no request of another session reaches it.
pub proof fn law_driver_works_for_one_session<F, S>(
    before: InnerView<F, S>,
    after: InnerView<F, S>,
    session: usize,
    scheduler: S,
    request: AsyncRequest<S>,
    result: Result<Admission<F>, Refusal<F, S>>,
)
    requires
        before.driver is Attached,
        before.driver->owner != session,
        let_in(before, after, session, scheduler, request, result),
    ensures
        after.channel == before.channel,
        after.driver is Attached,
        after.driver->owner == before.driver->owner,
        result matches Ok(Admission::Waiting),
{
}

/// A driver that has failed stays failed with the same error, and every later request is
/// refused with that error.
pub proof fn law_failure_is_final<F, S>(
    before: InnerView<F, S>,
    after: InnerView<F, S>,
    session: usize,
    scheduler: S,
    request: AsyncRequest<S>,
    admitted: Result<Admission<F>, Refusal<F, S>>,
    future: F,
    released: Release<F, S>,
)
    requires
        before.driver is Failed,
    ensures
        let_in(before, after, session, scheduler, request, admitted) ==> after == before && (
        admitted matches Err(refusal) && refused(refusal, request, before.driver->Failed_0)),
        let_go(before, after, future, released) ==> after == before,
{
}

/// Sessions wait in the order in which they came: a request moves nobody, and only its own
/// session has one more.
pub proof fn law_waiting_sessions_keep_their_places<S>(
    waiting: Seq<PendingView<S>>,
    session: usize,
    scheduler: S,
    request: AsyncRequest<S>,
    i: int,
)
    requires
        0 <= i < waiting.len(),
        forall|j: int| waits_at(waiting, session, j) && waits_at(waiting, session, i) ==> j == i,
    ensures
        ({
            let after = waits_too(waiting, session, scheduler, request);
            &&& after[i].session == waiting[i].session
            &&& after[i].scheduler == waiting[i].scheduler
            &&& after[i].requests == if waiting[i].session == session {
                waiting[i].requests.push(request)
            } else {
                waiting[i].requests
            }
        }),
{
    if is_waiting(waiting, session) {
        let place = choose|place: int| waits_at(waiting, session, place);
        assert(waits_at(waiting, session, place));
        if waiting[i].session == session {
            assert(waits_at(waiting, session, i));
        }
    } else if waiting[i].session == session {
        assert(waits_at(waiting, session, i));
    }
}

/// When the driver is let go of, the session that waited first gets it, and every other one
/// moves up by one place.
pub proof fn law_waiting_sessions_move_up<F, S>(
    before: InnerView<F, S>,
    after: InnerView<F, S>,
    future: F,
    result: Release<F, S>,
    i: int,
)
    requires
        before.driver is Attached,
        0 <= i < before.driver->waiting.len(),
        let_go(before, after, future, result),
    ensures
        after.driver is Attached,
        i == 0 ==> after.driver->owner == before.driver->waiting[0].session,
        i > 0 ==> after.driver->waiting[i - 1] == before.driver->waiting[i],
{
}

/// A request that waits is kept: what waits is what waited before, and the request.
pub proof fn law_waiting_request_is_kept<S>(
    waiting: Seq<PendingView<S>>,
    session: usize,
    scheduler: S,
    request: AsyncRequest<S>,
)
    ensures
        waiting_requests(waits_too(waiting, session, scheduler, request)).to_multiset()
            == waiting_requests(waiting).to_multiset().insert(request),
{
    broadcast use vstd::seq_lib::group_to_multiset_ensures;

    let after = waits_too(waiting, session, scheduler, request);
    if is_waiting(waiting, session) {
        let i = choose|i: int| waits_at(waiting, session, i);
        assert(waits_at(waiting, session, i));
        lemma_one_line_longer(waiting, i, request);
    } else {
        assert(after.drop_last() =~= waiting);
        assert(waiting_requests(waiting) + seq![request] =~= waiting_requests(waiting).push(
            request,
        ));
    }
}

proof fn lemma_one_line_longer<S>(
    waiting: Seq<PendingView<S>>,
    i: int,
    request: AsyncRequest<S>,
)
    requires
        0 <= i < waiting.len(),
    ensures
        waiting_requests(
            waiting.update(
                i,
                PendingView { requests: waiting[i].requests.push(request), ..waiting[i] },
            ),
        ).to_multiset() == waiting_requests(waiting).to_multiset().insert(request),
    decreases waiting.len(),
{
    broadcast use vstd::seq_lib::group_to_multiset_ensures;

    let longer = PendingView { requests: waiting[i].requests.push(request), ..waiting[i] };
    let after = waiting.update(i, longer);
    let front = waiting.drop_last();
    let last = waiting.last().requests;
    if i == waiting.len() - 1 {
        assert(after.drop_last() =~= front);
        assert(waiting_requests(front) + last.push(request) =~= (waiting_requests(front)
            + last).push(request));
    } else {
        lemma_one_line_longer(front, i, request);
        assert(after.drop_last() =~= front.update(i, longer));
        vstd::seq_lib::lemma_multiset_commutative(waiting_requests(front), last);
        vstd::seq_lib::lemma_multiset_commutative(waiting_requests(after.drop_last()), last);
        assert(waiting_requests(after).to_multiset() =~= waiting_requests(
            waiting,
        ).to_multiset().insert(request));
    }
}

/// Letting go of the driver takes out the requests of the session that waited first, and no
/// others.
pub proof fn law_release_takes_the_first_session<S>(waiting: Seq<PendingView<S>>)
    requires
        waiting.len() > 0,
    ensures
        waiting_requests(waiting) == waiting[0].requests + waiting_requests(waiting.skip(1)),
    decreases waiting.len(),
{
    let rest = waiting.skip(1);
    if waiting.len() == 1 {
        reveal_with_fuel(waiting_requests, 2);
        assert(waiting_requests(waiting) =~= waiting[0].requests + waiting_requests(rest));
    } else {
        let front = waiting.drop_last();
        law_release_takes_the_first_session(front);
        assert(rest.drop_last() =~= front.skip(1));
        assert(waiting_requests(waiting) =~= waiting[0].requests + waiting_requests(rest));
    }
}

/// Every request that a session had waiting is accounted for once: it went down the channel or
/// came back.
pub proof fn law_released_requests_are_accounted_for<S>(
    requests: Seq<AsyncRequest<S>>,
    before: ChannelView<AsyncRequest<S>>,
    after: ChannelView<AsyncRequest<S>>,
    told: Seq<Answer>,
)
    requires
        sorted_out(requests, before, after, told),
    ensures
        after.sent.len() >= before.sent.len(),
        after.returned.len() >= before.returned.len(),
        (after.sent.len() - before.sent.len()) + (after.returned.len() - before.returned.len())
            == requests.len(),
        after.sent.take(before.sent.len() as int) == before.sent,
    decreases requests.len(),
{
    if requests.len() > 0 {
        let request = requests.last();
        let earlier = requests.drop_last();
        let before_sending = ChannelView { sent: after.sent.drop_last(), ..after };
        let before_return = ChannelView { returned: after.returned.drop_last(), ..after };
        if after.sent.len() > 0 && handed(request, after.sent.last()) && sorted_out(
            earlier,
            before,
            before_sending,
            told,
        ) {
            law_released_requests_are_accounted_for(earlier, before, before_sending, told);
            assert(after.sent.take(before.sent.len() as int) =~= after.sent.drop_last().take(
                before.sent.len() as int,
            ));
        } else if request.response@.sender is Some {
            law_released_requests_are_accounted_for(
                earlier,
                before,
                before_return,
                told.drop_last(),
            );
        } else {
            law_released_requests_are_accounted_for(earlier, before, before_return, told);
        }
    } else {
        assert(after.sent.take(before.sent.len() as int) =~= before.sent);
    }
}

/// A session waits once, not for the driver that it has, and with a request.
pub proof fn law_instance_keeps_its_sessions_apart<F, S>(inner: AsyncInstanceInner<F, S>)
    requires
        inner.wf(),
    ensures
        driver_wf(inner@.driver),
{
}

/// A driver that its session lets go of, while no other waits, is idle, and the next request of
/// any session that reaches the driver starts the same future.
pub proof fn law_released_driver_starts_again<F, S>(
    before: InnerView<F, S>,
    between: InnerView<F, S>,
    after: InnerView<F, S>,
    future: F,
    released: Release<F, S>,
    session: usize,
    scheduler: S,
    request: AsyncRequest<S>,
    admitted: Result<Admission<F>, Refusal<F, S>>,
)
    requires
        before.driver is Attached,
        before.driver->waiting.len() == 0,
        let_go(before, between, future, released),
        let_in(between, after, session, scheduler, request, admitted),
    ensures
        released is Parked,
        between == (InnerView { driver: DriverView::<F, S>::Idle(future), ..before }),
        match admitted {
            Ok(admission) => admission == Admission::Start(future) && sent_on(
                before.channel,
                after.channel,
                request,
            ) && after.driver is Attached && after.driver->owner == session,
            Err(_) => came_back(before.channel, after.channel, request),
        },
{
}

/// A request that a driver drops leaves its caller without a word, whatever its guard would have
/// said before it was handed over.
pub proof fn law_dropped_by_its_driver_is_not_cancelled<S>(
    request: AsyncRequest<S>,
    message: AsyncRequest<S>,
)
    requires
        handed(request, message),
    ensures
        last_word(message.response@) is None,
        parting(None, message.response@),
{
}

/// A driver while it works for a session.
pub struct AttachedDriver<F> {
    future: Option<F>,
}

impl<F> View for AttachedDriver<F> {
    type V = Option<F>;

    closed spec fn view(&self) -> Option<F> {
        self.future
    }
}

/// What came of polling an attached driver.
pub enum DriverPoll<F> {
    /// It goes on.
    Pending,
    /// It has ended, now or before. Whoever waited has an answer, and what nobody needs any
    /// more is handed out.
    Ended { told: Vec<Answer>, dropped: Vec<F> },
}

impl<F> AttachedDriver<F> {
    /// A driver that starts to work for a session.
    pub fn new(future: F) -> (result: Self)
        ensures
            result@ == Some(future),
    {
        AttachedDriver { future: Some(future) }
    }

    /// The future that is to be polled, unless it has ended.
    pub fn future(&mut self) -> (result: Option<&mut F>)
        ensures
            match result {
                Some(future) => old(self)@ == Some(*future) && final(self)@ == Some(
                    *final(future),
                ),
                None => old(self)@ is None && final(self)@ is None,
            },
    {
        match &mut self.future {
            Some(future) => Some(future),
            None => None,
        }
    }

    /// Goes on once the future has been polled. `ended` is the error that it ended with. An
    /// instance whose driver has ended fails with the driver's error.
    pub fn polled<S>(
        &mut self,
        inner: &mut AsyncInstanceInner<F, S>,
        ended: Option<AsyncRuntimeError>,
    ) -> (result: DriverPoll<F>)
        requires
            old(inner).wf(),
        ensures
            final(inner).wf(),
            match (old(self)@, ended) {
                (Some(_), None) => result is Pending && final(self)@ == old(self)@
                    && final(inner)@ == old(inner)@,
                (Some(future), Some(error)) => {
                    &&& result matches DriverPoll::Ended { told, dropped }
                    &&& all_told(told@, callers_of(kept_waiting(old(inner)@.driver)), error)
                    &&& dropped@ == match old(inner)@.driver {
                        DriverView::Idle(idle) => seq![future, idle],
                        _ => seq![future],
                    }
                    &&& final(self)@ is None
                    &&& final(inner)@ == (InnerView {
                        driver: DriverView::<F, S>::Failed(error),
                        ..old(inner)@
                    })
                },
                (None, _) => (result matches DriverPoll::Ended { told, dropped } && told@.len()
                    == 0 && dropped@.len() == 0) && final(self)@ is None && final(inner)@
                    == old(inner)@,
            },
    {
        let mut held = None;
        core::mem::swap(&mut held, &mut self.future);
        match held {
            None => DriverPoll::Ended { told: Vec::new(), dropped: Vec::new() },
            Some(future) => match ended {
                None => {
                    self.future = Some(future);
                    DriverPoll::Pending
                },
                Some(error) => {
                    let (told, idle) = inner.fail(&error);
                    let mut dropped: Vec<F> = Vec::new();
                    dropped.push(future);
                    if let Some(idle) = idle {
                        dropped.push(idle);
                    }
                    DriverPoll::Ended { told, dropped }
                },
            },
        }
    }

    /// The session lets go of the driver. One that has not ended goes back to its instance.
    pub fn detach<S>(&mut self, inner: &mut AsyncInstanceInner<F, S>) -> (result: Option<
        Release<F, S>,
    >)
        requires
            old(inner).wf(),
        ensures
            final(inner).wf(),
            final(self)@ is None,
            match old(self)@ {
                Some(future) => result matches Some(release) && let_go(
                    old(inner)@,
                    final(inner)@,
                    future,
                    release,
                ),
                None => result is None && final(inner)@ == old(inner)@,
            },
    {
        let mut held = None;
        core::mem::swap(&mut held, &mut self.future);
        match held {
            Some(future) => Some(inner.release(future)),
            None => None,
        }
    }
}

/// Of requests that are answered, each one's caller is told, in the order of the requests: none
/// that waits is left out, none is told twice, and nobody else is told.
pub proof fn law_each_caller_is_told_once<S>(
    left: Seq<AsyncRequest<S>>,
    request: AsyncRequest<S>,
    right: Seq<AsyncRequest<S>>,
)
    ensures
        callers_of(Seq::<AsyncRequest<S>>::empty()).len() == 0,
        callers_of(left + seq![request] + right) == callers_of(left) + (match request.response@.sender {
            Some(sender) => seq![sender],
            None => Seq::empty(),
        }) + callers_of(right),
{
    lemma_callers_of_both(left + seq![request], right);
    assert((left + seq![request]).drop_last() =~= left);
    assert((left + seq![request]).last() == request);
    assert(callers_of(left + seq![request]) =~= callers_of(left)
        + match request.response@.sender {
        Some(sender) => seq![sender],
        None => Seq::empty(),
    });
}

/// `told` holds a word for the caller at `sender`, and it is that its call failed with `error`.
pub open spec fn hears(told: Seq<Answer>, sender: Sender<Response>, error: AsyncRuntimeError) -> bool {
    exists|k: int|
        0 <= k < told.len() && (#[trigger] told[k]).sender == sender && told[k].response == Err::<
            crate::value::Value,
            DispatchError,
        >(DispatchError::RuntimeException(RuntimeFault::Driver(error)))
}

/// Whoever waits for one of the requests hears of the error.
pub proof fn law_whoever_waits_hears_of_the_error<S>(
    requests: Seq<AsyncRequest<S>>,
    told: Seq<Answer>,
    error: AsyncRuntimeError,
    i: int,
)
    requires
        all_told(told, callers_of(requests), error),
        0 <= i < requests.len(),
        requests[i].response@.sender is Some,
    ensures
        hears(told, requests[i].response@.sender->0, error),
{
    let left = requests.take(i);
    let right = requests.skip(i + 1);
    law_each_caller_is_told_once(left, requests[i], right);
    assert(left + seq![requests[i]] + right =~= requests);
    let k = callers_of(left).len() as int;
    assert(callers_of(requests)[k] == requests[i].response@.sender->0);
    assert(tells(told[k], callers_of(requests)[k], error));
}

/// Whoever is told is the caller of one of the requests.
pub proof fn law_only_callers_are_told<S>(
    requests: Seq<AsyncRequest<S>>,
    told: Seq<Answer>,
    error: AsyncRuntimeError,
    k: int,
)
    requires
        all_told(told, callers_of(requests), error),
        0 <= k < told.len(),
    ensures
        exists|i: int|
            0 <= i < requests.len() && (#[trigger] requests[i]).response@.sender == Some(
                told[k].sender,
            ),
    decreases requests.len(),
{
    let callers = callers_of(requests);
    assert(tells(told[k], callers[k], error));
    if requests.len() > 0 {
        let earlier = requests.drop_last();
        if k < callers_of(earlier).len() {
            let shorter = told.take(callers_of(earlier).len() as int);
            assert forall|j: int| 0 <= j < shorter.len() implies tells(
                #[trigger] shorter[j],
                callers_of(earlier)[j],
                error,
            ) by {
                assert(tells(told[j], callers[j], error));
            }
            law_only_callers_are_told(earlier, shorter, error, k);
            let i = choose|i: int|
                0 <= i < earlier.len() && (#[trigger] earlier[i]).response@.sender == Some(
                    shorter[k].sender,
                );
            assert(requests[i] == earlier[i]);
        } else {
            assert(requests[requests.len() - 1].response@.sender == Some(told[k].sender));
        }
    }
}

/// What waits is every request of every session that waits.
pub proof fn law_every_waiting_request_counts<S>(waiting: Seq<PendingView<S>>, i: int, j: int)
    requires
        0 <= i < waiting.len(),
        0 <= j < waiting[i].requests.len(),
    ensures
        exists|k: int|
            0 <= k < waiting_requests(waiting).len() && #[trigger] waiting_requests(waiting)[k]
                == waiting[i].requests[j],
    decreases waiting.len(),
{
    let earlier = waiting_requests(waiting.drop_last());
    if i == waiting.len() - 1 {
        assert(waiting_requests(waiting)[earlier.len() + j] == waiting[i].requests[j]);
    } else {
        law_every_waiting_request_counts(waiting.drop_last(), i, j);
        let k = choose|k: int|
            0 <= k < earlier.len() && #[trigger] earlier[k] == waiting.drop_last()[i].requests[j];
        assert(waiting_requests(waiting)[k] == earlier[k]);
    }
}

/// A driver that fails leaves nobody waiting: the caller of every request that a session had
/// waiting hears of the error.
pub proof fn law_failed_driver_leaves_nobody_waiting<F, S>(
    driver: DriverView<F, S>,
    told: Seq<Answer>,
    error: AsyncRuntimeError,
    i: int,
    j: int,
)
    requires
        all_told(told, callers_of(kept_waiting(driver)), error),
        driver is Attached,
        0 <= i < driver->waiting.len(),
        0 <= j < driver->waiting[i].requests.len(),
        driver->waiting[i].requests[j].response@.sender is Some,
    ensures
        hears(told, driver->waiting[i].requests[j].response@.sender->0, error),
{
    let requests = waiting_requests(driver->waiting);
    law_every_waiting_request_counts(driver->waiting, i, j);
    let k = choose|k: int|
        0 <= k < requests.len() && #[trigger] requests[k] == driver->waiting[i].requests[j];
    law_whoever_waits_hears_of_the_error(requests, told, error, k);
}

/// What a driver held is given up as a whole: every request that a session had waiting, and whose
/// guard is armed, has its caller told that the call was cancelled.
pub proof fn law_given_up_requests_are_cancelled<F, S>(
    driver: DriverView<F, S>,
    told: Seq<Answer>,
    i: int,
    j: int,
)
    requires
        all_told(told, last_words(kept_waiting(driver)), AsyncRuntimeError::CallCancelled),
        driver is Attached,
        0 <= i < driver->waiting.len(),
        0 <= j < driver->waiting[i].requests.len(),
        driver->waiting[i].requests[j].response@.armed,
        driver->waiting[i].requests[j].response@.sender is Some,
    ensures
        hears(
            told,
            driver->waiting[i].requests[j].response@.sender->0,
            AsyncRuntimeError::CallCancelled,
        ),
{
    let requests = waiting_requests(driver->waiting);
    law_every_waiting_request_counts(driver->waiting, i, j);
    let k = choose|k: int|
        0 <= k < requests.len() && #[trigger] requests[k] == driver->waiting[i].requests[j];
    law_armed_guards_are_heard(requests, told, k);
}

/// Of requests that are given up, the caller of each whose guard is armed hears that its call was
/// cancelled.
pub proof fn law_armed_guards_are_heard<S>(
    requests: Seq<AsyncRequest<S>>,
    told: Seq<Answer>,
    i: int,
)
    requires
        all_told(told, last_words(requests), AsyncRuntimeError::CallCancelled),
        0 <= i < requests.len(),
        requests[i].response@.armed,
        requests[i].response@.sender is Some,
    ensures
        hears(told, requests[i].response@.sender->0, AsyncRuntimeError::CallCancelled),
{
    let left = requests.take(i);
    let right = requests.skip(i + 1);
    crate::request::law_each_guard_has_its_word(left, requests[i], right);
    assert(left + seq![requests[i]] + right =~= requests);
    let k = last_words(left).len() as int;
    assert(last_words(requests)[k] == requests[i].response@.sender->0);
    assert(tells(told[k], last_words(requests)[k], AsyncRuntimeError::CallCancelled));
}

/// The message that goes to a driver is the caller's: it asks for the same call with the same
/// arguments, and its answer goes to the same caller.
pub proof fn law_driver_gets_the_callers_request<S>(
    request: AsyncRequest<S>,
    message: AsyncRequest<S>,
)
    requires
        handed(request, message),
    ensures
        message.data@ == request.data@,
        message.package_name@ == request.package_name@,
        message.interface_name@ == request.interface_name@,
        message.function_name@ == request.function_name@,
        message.function == request.function,
        message.active == request.active,
        message.response@.sender == request.response@.sender,
        !message.response@.armed,
{
}

/// A driver that is idle, or works for the session, gets the request at once, behind all that it
/// was sent before, and works for the session from then on, and nobody's wait changes. Where
/// nobody receives, the caller hears that the driver stopped, the driver has failed for good, and
/// what it held is handed out.
pub proof fn law_own_requests_go_straight_to_the_driver<F, S>(
    before: InnerView<F, S>,
    after: InnerView<F, S>,
    session: usize,
    scheduler: S,
    request: AsyncRequest<S>,
    result: Result<Admission<F>, Refusal<F, S>>,
)
    requires
        before.driver is Idle || (before.driver is Attached && before.driver->owner == session),
        let_in(before, after, session, scheduler, request, result),
    ensures
        after.channel.sender == before.channel.sender,
        result is Ok ==> {
            &&& after.channel.sent.len() == before.channel.sent.len() + 1
            &&& after.channel.sent.drop_last() == before.channel.sent
            &&& handed(request, after.channel.sent.last())
            &&& after.channel.returned == before.channel.returned
            &&& after.driver is Attached
            &&& after.driver->owner == session
            &&& before.driver is Idle ==> after.driver->waiting.len() == 0
            &&& before.driver is Attached ==> after.driver->waiting == before.driver->waiting
        },
        result matches Ok(Admission::Start(future)) ==> before.driver == DriverView::<F, S>::Idle(
            future,
        ),
        result is Ok && before.driver is Attached ==> result->Ok_0 is Sent,
        result is Ok && before.driver is Idle ==> result->Ok_0 is Start,
        result matches Err(refusal) ==> {
            &&& after.driver == DriverView::<F, S>::Failed(AsyncRuntimeError::DriverStopped)
            &&& after.channel.sent == before.channel.sent
            &&& after.channel.returned.len() == before.channel.returned.len() + 1
            &&& handed(request, after.channel.returned.last())
            &&& refusal.error == DispatchError::RuntimeException(
                RuntimeFault::Driver(AsyncRuntimeError::DriverStopped),
            )
            &&& refusal.answer is Some <==> request.response@.sender is Some
            &&& refusal.answer matches Some(answer) ==> request.response@.sender == Some(
                answer.sender,
            ) && answer.response == Err::<crate::value::Value, DispatchError>(refusal.error)
            &&& refusal.dropped is Some && refusal.dropped->0@ == before.driver
        },
{
}

/// A driver that has failed refuses every request with its error: the caller hears of the same
/// error, and nothing changes.
pub proof fn law_failed_driver_refuses<F, S>(
    before: InnerView<F, S>,
    after: InnerView<F, S>,
    session: usize,
    scheduler: S,
    request: AsyncRequest<S>,
    result: Result<Admission<F>, Refusal<F, S>>,
)
    requires
        before.driver is Failed,
        let_in(before, after, session, scheduler, request, result),
    ensures
        after == before,
        result matches Err(refusal) && refusal.dropped is None && refusal.error
            == DispatchError::RuntimeException(RuntimeFault::Driver(before.driver->Failed_0))
            && (refusal.answer is Some <==> request.response@.sender is Some) && (
        refusal.answer matches Some(answer) ==> request.response@.sender == Some(answer.sender)
            && answer.response == Err::<crate::value::Value, DispatchError>(refusal.error)),
{
}

/// A request of another session waits: behind the session's own if it waits already, else the
/// session joins behind all others, with this request alone.
pub proof fn law_other_sessions_join_at_the_end<F, S>(
    before: InnerView<F, S>,
    after: InnerView<F, S>,
    session: usize,
    scheduler: S,
    request: AsyncRequest<S>,
    result: Result<Admission<F>, Refusal<F, S>>,
)
    requires
        before.driver is Attached,
        before.driver->owner != session,
        let_in(before, after, session, scheduler, request, result),
    ensures
        ({
            let waiting = before.driver->waiting;
            let longer = after.driver->waiting;
            &&& after.driver is Attached
            &&& forall|i: int|
                0 <= i < waiting.len() ==> (#[trigger] longer[i]).session == waiting[i].session
                    && longer[i].scheduler == waiting[i].scheduler && (waiting[i].session != session
                    ==> longer[i].requests == waiting[i].requests)
            &&& !is_waiting(waiting, session) ==> longer.len() == waiting.len() + 1
                && longer.last().session == session && longer.last().scheduler == scheduler
                && longer.last().requests == seq![request]
            &&& is_waiting(waiting, session) ==> longer.len() == waiting.len() && exists|i: int| #[trigger]
                waits_at(waiting, session, i) && longer[i].requests
                    == waiting[i].requests.push(request)
        }),
{
    let waiting = before.driver->waiting;
    if is_waiting(waiting, session) {
        let place = choose|i: int| waits_at(waiting, session, i);
        assert(waits_at(waiting, session, place));
    }
}

/// A driver that its session lets go of passes, with its future, to the session that waited
/// first, and that session waits no more. One that nobody waits for is idle with its future. One
/// that had failed is given back.
pub proof fn law_driver_passes_with_its_future<F, S>(
    before: InnerView<F, S>,
    after: InnerView<F, S>,
    future: F,
    result: Release<F, S>,
)
    requires
        let_go(before, after, future, result),
    ensures
        before.driver is Attached && before.driver->waiting.len() > 0 ==> {
            let waiting = before.driver->waiting;
            &&& result matches Release::HandOver { scheduler, future: passed, told }
            &&& scheduler == waiting[0].scheduler
            &&& passed == future
            &&& after.driver is Attached
            &&& after.driver->owner == waiting[0].session
            &&& after.driver->waiting.len() == waiting.len() - 1
            &&& forall|i: int|
                1 <= i < waiting.len() ==> after.driver->waiting[i - 1] == #[trigger] waiting[i]
        },
        before.driver is Attached && before.driver->waiting.len() == 0 ==> result is Parked
            && after.driver == DriverView::<F, S>::Idle(future) && after.channel == before.channel,
        !(before.driver is Attached) ==> result == Release::<F, S>::Dropped(future) && after
            == before,
{
}

/// Requests that a driver receives reach it all, in the order in which they waited, behind all
/// that it was sent before, and nobody is told anything.
pub proof fn law_released_requests_go_in_order<S>(
    requests: Seq<AsyncRequest<S>>,
    before: ChannelView<AsyncRequest<S>>,
    after: ChannelView<AsyncRequest<S>>,
    told: Seq<Answer>,
)
    requires
        sorted_out(requests, before, after, told),
        after.returned.len() == before.returned.len(),
    ensures
        told.len() == 0,
        after.returned == before.returned,
        after.sent.len() == before.sent.len() + requests.len(),
        forall|i: int|
            0 <= i < before.sent.len() ==> #[trigger] after.sent[i] == before.sent[i],
        forall|i: int|
            0 <= i < requests.len() ==> handed(
                #[trigger] requests[i],
                after.sent[before.sent.len() + i],
            ),
    decreases requests.len(),
{
    if requests.len() > 0 {
        let earlier = requests.drop_last();
        let before_sending = ChannelView { sent: after.sent.drop_last(), ..after };
        let before_return = ChannelView { returned: after.returned.drop_last(), ..after };
        if after.sent.len() > 0 && handed(requests.last(), after.sent.last()) && sorted_out(
            earlier,
            before,
            before_sending,
            told,
        ) {
            law_released_requests_go_in_order(earlier, before, before_sending, told);
            assert forall|i: int| 0 <= i < requests.len() implies handed(
                #[trigger] requests[i],
                after.sent[before.sent.len() + i],
            ) by {
                if i < earlier.len() {
                    assert(handed(earlier[i], before_sending.sent[before.sent.len() + i]));
                }
            }
            assert forall|i: int| 0 <= i < before.sent.len() implies #[trigger] after.sent[i]
                == before.sent[i] by {
                assert(before_sending.sent[i] == before.sent[i]);
            }
        } else {
            match requests.last().response@.sender {
                Some(_) => {
                    law_released_requests_are_accounted_for(
                        earlier,
                        before,
                        before_return,
                        told.drop_last(),
                    );
                },
                None => {
                    law_released_requests_are_accounted_for(earlier, before, before_return, told);
                },
            }
        }
    }
}

/// Requests that a driver does not receive come back all, in order, and the callers of all of
/// them, in order, hear that the driver stopped.
pub proof fn law_undelivered_requests_are_answered<S>(
    requests: Seq<AsyncRequest<S>>,
    before: ChannelView<AsyncRequest<S>>,
    after: ChannelView<AsyncRequest<S>>,
    told: Seq<Answer>,
)
    requires
        sorted_out(requests, before, after, told),
        after.sent.len() == before.sent.len(),
    ensures
        after.sent == before.sent,
        after.returned.len() == before.returned.len() + requests.len(),
        forall|i: int|
            0 <= i < requests.len() ==> handed(
                #[trigger] requests[i],
                after.returned[before.returned.len() + i],
            ),
        all_told(told, callers_of(requests), AsyncRuntimeError::DriverStopped),
    decreases requests.len(),
{
    if requests.len() > 0 {
        let earlier = requests.drop_last();
        let before_sending = ChannelView { sent: after.sent.drop_last(), ..after };
        let before_return = ChannelView { returned: after.returned.drop_last(), ..after };
        if after.sent.len() > 0 && handed(requests.last(), after.sent.last()) && sorted_out(
            earlier,
            before,
            before_sending,
            told,
        ) {
            law_released_requests_are_accounted_for(earlier, before, before_sending, told);
        } else {
            let shorter = match requests.last().response@.sender {
                Some(_) => told.drop_last(),
                None => told,
            };
            law_undelivered_requests_are_answered(earlier, before, before_return, shorter);
            assert forall|i: int| 0 <= i < requests.len() implies handed(
                #[trigger] requests[i],
                after.returned[before.returned.len() + i],
            ) by {
                if i < earlier.len() {
                    assert(handed(earlier[i], before_return.returned[before.returned.len() + i]));
                }
            }
            let callers = callers_of(requests);
            assert forall|i: int| 0 <= i < told.len() implies tells(
                #[trigger] told[i],
                callers[i],
                AsyncRuntimeError::DriverStopped,
            ) by {
                if i < shorter.len() {
                    assert(tells(shorter[i], callers_of(earlier)[i], AsyncRuntimeError::DriverStopped));
                }
            }
        }
    }
}

/// `request` is among those that were sent down the channel.
pub open spec fn newly_sent<S>(
    before: ChannelView<AsyncRequest<S>>,
    after: ChannelView<AsyncRequest<S>>,
    request: AsyncRequest<S>,
) -> bool {
    exists|j: int|
        before.sent.len() <= j < after.sent.len() && handed(request, #[trigger] after.sent[j])
}

/// Whatever the driver receives, no request of the session that gets it is lost: it was sent, or
/// its caller hears that the driver stopped.
pub proof fn law_released_request_is_sent_or_answered<S>(
    requests: Seq<AsyncRequest<S>>,
    before: ChannelView<AsyncRequest<S>>,
    after: ChannelView<AsyncRequest<S>>,
    told: Seq<Answer>,
    i: int,
)
    requires
        sorted_out(requests, before, after, told),
        0 <= i < requests.len(),
        requests[i].response@.sender is Some,
    ensures
        newly_sent(before, after, requests[i]) || hears(
            told,
            requests[i].response@.sender->0,
            AsyncRuntimeError::DriverStopped,
        ),
    decreases requests.len(),
{
    let earlier = requests.drop_last();
    let before_sending = ChannelView { sent: after.sent.drop_last(), ..after };
    let before_return = ChannelView { returned: after.returned.drop_last(), ..after };
    let last = requests.len() - 1;
    let sender = requests[i].response@.sender->0;
    if after.sent.len() > 0 && handed(requests.last(), after.sent.last()) && sorted_out(
        earlier,
        before,
        before_sending,
        told,
    ) {
        law_released_requests_are_accounted_for(earlier, before, before_sending, told);
        if i == last {
            assert(handed(requests[i], after.sent[after.sent.len() - 1]));
        } else {
            law_released_request_is_sent_or_answered(earlier, before, before_sending, told, i);
            if newly_sent(before, before_sending, requests[i]) {
                let j = choose|j: int|
                    before.sent.len() <= j < before_sending.sent.len() && handed(
                        requests[i],
                        #[trigger] before_sending.sent[j],
                    );
                assert(handed(requests[i], after.sent[j]));
            }
        }
    } else {
        let shorter = match requests.last().response@.sender {
            Some(_) => told.drop_last(),
            None => told,
        };
        if i == last {
            assert(tells(told[told.len() - 1], sender, AsyncRuntimeError::DriverStopped));
        } else {
            law_released_request_is_sent_or_answered(earlier, before, before_return, shorter, i);
            if newly_sent(before, before_return, requests[i]) {
                let j = choose|j: int|
                    before.sent.len() <= j < before_return.sent.len() && handed(
                        requests[i],
                        #[trigger] before_return.sent[j],
                    );
                assert(handed(requests[i], after.sent[j]));
            } else {
                let k = choose|k: int|
                    0 <= k < shorter.len() && (#[trigger] shorter[k]).sender == sender
                        && shorter[k].response == Err::<crate::value::Value, DispatchError>(
                        DispatchError::RuntimeException(
                            RuntimeFault::Driver(AsyncRuntimeError::DriverStopped),
                        ),
                    );
                assert(told[k] == shorter[k]);
            }
        }
    }
}

/// An instance whose driver has ended fails with the driver's error, and everybody who waited
/// hears of it, once: a driver that has ended before tells nobody anything, and one that goes on
/// changes nothing.
pub proof fn law_ended_driver_fails_its_instance<F, S>(
    driver: &mut AttachedDriver<F>,
    inner: &mut AsyncInstanceInner<F, S>,
    ended: Option<AsyncRuntimeError>,
    result: DriverPoll<F>,
)
    requires
        call_ensures(AttachedDriver::<F>::polled::<S>, (driver, inner, ended), result),
    ensures
        result is Pending <==> old(driver)@ is Some && ended is None,
        result is Pending ==> final(inner)@ == old(inner)@ && final(driver)@ == old(driver)@,
        !(result is Pending) ==> final(driver)@ is None,
        old(driver)@ is Some && ended is Some ==> final(inner)@.driver == DriverView::<
            F,
            S,
        >::Failed(ended->0) && final(inner)@.channel == old(inner)@.channel,
        old(driver)@ is Some && ended is Some && old(inner)@.driver is Attached ==> forall|
            i: int,
            j: int,
        |
            #![trigger old(inner)@.driver->waiting[i].requests[j]]
            0 <= i < old(inner)@.driver->waiting.len() && 0 <= j < old(
                inner,
            )@.driver->waiting[i].requests.len() && old(
                inner,
            )@.driver->waiting[i].requests[j].response@.sender is Some ==> hears(
                result->told@,
                old(inner)@.driver->waiting[i].requests[j].response@.sender->0,
                ended->0,
            ),
        old(driver)@ is None ==> final(inner)@ == old(inner)@ && result->told@.len() == 0,
{
    if old(driver)@ is Some && ended is Some && old(inner)@.driver is Attached {
        let before = old(inner)@.driver;
        assert forall|i: int, j: int|
            #![trigger before->waiting[i].requests[j]]
            0 <= i < before->waiting.len() && 0 <= j < before->waiting[i].requests.len()
                && before->waiting[i].requests[j].response@.sender is Some implies hears(
            result->told@,
            before->waiting[i].requests[j].response@.sender->0,
            ended->0,
        ) by {
            law_failed_driver_leaves_nobody_waiting(before, result->told@, ended->0, i, j);
        }
    }
}

/// A driver that fails refuses everything that comes later with the error that it failed with.
pub proof fn law_failed_driver_stays_failed<F, S>(
    failing: &mut AsyncInstanceInner<F, S>,
    inner: &mut AsyncInstanceInner<F, S>,
    error: &AsyncRuntimeError,
    failed: (Vec<Answer>, Option<F>),
    session: usize,
    scheduler: S,
    request: AsyncRequest<S>,
    result: Result<Admission<F>, Refusal<F, S>>,
)
    requires
        call_ensures(AsyncInstanceInner::<F, S>::fail, (failing, error), failed),
        final(failing)@ == old(inner)@,
        call_ensures(
            AsyncInstanceInner::<F, S>::enqueue,
            (inner, session, scheduler, request),
            result,
        ),
    ensures
        old(inner)@.driver == DriverView::<F, S>::Failed(*error),
        final(inner)@ == old(inner)@,
        result matches Err(refusal) && refusal.error == DispatchError::RuntimeException(
            RuntimeFault::Driver(*error),
        ),
        failed.1 is Some <==> old(failing)@.driver is Idle,
{
    law_failed_driver_refuses(old(inner)@, final(inner)@, session, scheduler, request, result);
}

/// A session that lets go of its driver gives it back once: a driver that has not ended goes to
/// its instance, and letting go again changes nothing.
pub proof fn law_driver_is_given_back_once<F, S>(
    driver: &mut AttachedDriver<F>,
    inner: &mut AsyncInstanceInner<F, S>,
    result: Option<Release<F, S>>,
)
    requires
        call_ensures(AttachedDriver::<F>::detach::<S>, (driver, inner), result),
    ensures
        final(driver)@ is None,
        result is Some <==> old(driver)@ is Some,
        old(driver)@ is None ==> final(inner)@ == old(inner)@,
        old(driver)@ is Some && old(inner)@.driver is Attached && old(
            inner,
        )@.driver->waiting.len() == 0 ==> final(inner)@.driver == DriverView::<F, S>::Idle(
            old(driver)@->0,
        ),
        old(driver)@ is Some && old(inner)@.driver is Attached && old(
            inner,
        )@.driver->waiting.len() > 0 ==> final(inner)@.driver is Attached
            && final(inner)@.driver->owner == old(inner)@.driver->waiting[0].session,
{
    if old(driver)@ is Some {
        law_driver_passes_with_its_future(
            old(inner)@,
            final(inner)@,
            old(driver)@->0,
            result->0,
        );
    }
}

} // verus!
