//! How a session ends: every call that still waits is answered.

use crate::driver::{all_told, hears, law_armed_guards_are_heard};
use crate::error::AsyncRuntimeError;
use crate::path::{ExecutionPathId, PluginKey};
use crate::queue::{Created, front};
use crate::request::{Answer, AsyncRequest, failed_with, last_words, tells};
use crate::scheduler::{
    AsyncScheduler, HeldReady, Level, Ready, ScheduledCall, SchedulerView, call_taken, held_in_order,
    held_ready, is_next, law_taken_call_heads_its_line, law_waiting_call_is_held,
    lemma_numbered_after_taking, next_out, number_of, numbered, ready_wf, take_next, waiting, waits,
};
use vstd::prelude::*;

verus! {

/// `call` waits somewhere.
pub open spec fn is_held<C>(ready: Ready<C>, call: C) -> bool {
    exists|d: PluginKey, c: PluginKey, p: ExecutionPathId, i: int| #[trigger]
        waits(ready, d, c, p, i) && waiting(ready, d, c, p)[i] == call
}

/// `calls` are the calls that wait, each once.
pub open spec fn each_once<C>(ready: Ready<C>, calls: Seq<C>) -> bool {
    &&& calls.no_duplicates()
    &&& forall|call: C| #[trigger] calls.contains(call) <==> is_held(ready, call)
}

/// Taking the next call leaves every other call waiting, and it alone not.
proof fn lemma_next_out_leaves_the_others<C: Created>(
    before: Ready<C>,
    after: Ready<C>,
    next: u64,
    call: C,
)
    requires
        ready_wf(before),
        numbered(before, next),
        next_out(before, after, call),
    ensures
        numbered(after, next),
        call.created() < next,
        is_held(before, call),
        forall|other: C| #[trigger]
            is_held(after, other) <==> is_held(before, other) && other != call,
        forall|other: C| #[trigger] is_held(after, other) ==> other.created() != call.created(),
{
    let (depth, destination) = choose|depth: usize, destination: PluginKey|
        {
            &&& #[trigger] is_next(before, depth, destination)
            &&& call == front(before[depth][destination])
            &&& after == call_taken(before, depth, destination)
        };
    law_taken_call_heads_its_line(before, depth, destination);
    lemma_numbered_after_taking(before, next, depth, destination);
    let caller = before[depth][destination][0].0;
    let path = before[depth][destination][0].1[0].0;
    assert(waits(before, destination, caller, path, 0));
    assert(number_of(before, destination, caller, path, 0) == call.created());
    assert forall|other: C| #[trigger] is_held(after, other) implies is_held(before, other)
        && other.created() != call.created() by {
        let (d, c, p, i) = choose|d: PluginKey, c: PluginKey, p: ExecutionPathId, i: int| #[trigger]
            waits(after, d, c, p, i) && waiting(after, d, c, p)[i] == other;
        let shift: int = if (d, c, p) == (destination, caller, path) {
            1
        } else {
            0
        };
        assert(waits(before, d, c, p, i + shift));
        assert(waiting(before, d, c, p)[i + shift] == other);
        assert(number_of(before, d, c, p, i + shift) == other.created());
    }
    assert forall|other: C| #[trigger] is_held(before, other) && other != call implies is_held(
        after,
        other,
    ) by {
        let (d, c, p, i) = choose|d: PluginKey, c: PluginKey, p: ExecutionPathId, i: int| #[trigger]
            waits(before, d, c, p, i) && waiting(before, d, c, p)[i] == other;
        let shift: int = if (d, c, p) == (destination, caller, path) {
            1
        } else {
            0
        };
        assert(waits(after, d, c, p, i - shift));
        assert(waiting(after, d, c, p)[i - shift] == other);
    }
}

/// A call with number `number` waits.
pub open spec fn number_held<C: Created>(ready: Ready<C>, number: int) -> bool {
    exists|call: C| #[trigger] is_held(ready, call) && call.created() == number
}

/// How many numbers below `bound` are those of calls that wait.
pub open spec fn held_below<C: Created>(ready: Ready<C>, bound: nat) -> nat
    decreases bound,
{
    if bound == 0 {
        0
    } else {
        held_below(ready, (bound - 1) as nat) + if number_held(ready, bound - 1) {
            1nat
        } else {
            0nat
        }
    }
}

/// Without one of its calls, fewer numbers are held.
proof fn lemma_fewer_held<C: Created>(before: Ready<C>, after: Ready<C>, call: C, bound: nat)
    requires
        is_held(before, call),
        forall|other: C| #[trigger]
            is_held(after, other) <==> is_held(before, other) && other != call,
        forall|other: C| #[trigger] is_held(after, other) ==> other.created() != call.created(),
    ensures
        held_below(after, bound) + if call.created() < bound {
            1nat
        } else {
            0nat
        } == held_below(before, bound),
    decreases bound,
{
    if bound > 0 {
        lemma_fewer_held(before, after, call, (bound - 1) as nat);
        let number = bound - 1;
        if number == call.created() {
            assert(number_held(before, number));
            assert(!number_held(after, number));
        } else {
            if number_held(before, number) {
                let other = choose|other: C| #[trigger]
                    is_held(before, other) && other.created() == number;
                assert(is_held(after, other));
            }
            if number_held(after, number) {
                let other = choose|other: C| #[trigger]
                    is_held(after, other) && other.created() == number;
                assert(is_held(before, other));
            }
        }
    }
}

/// The requests of calls, in order.
pub open spec fn requests_of<T, S>(calls: Seq<ScheduledCall<T, AsyncRequest<S>>>) -> Seq<
    AsyncRequest<S>,
> {
    calls.map_values(|call: ScheduledCall<T, AsyncRequest<S>>| call.request)
}

/// Every call of `ready` has been given up: `told` tells each caller whose request has not been
/// answered, and whose guard is armed, once that the call was cancelled, and nobody else anything.
pub open spec fn all_cancelled<T, S>(
    ready: Ready<ScheduledCall<T, AsyncRequest<S>>>,
    told: Seq<Answer>,
) -> bool {
    exists|calls: Seq<ScheduledCall<T, AsyncRequest<S>>>| #[trigger]
        each_once(ready, calls) && all_told(
            told,
            last_words(requests_of(calls)),
            AsyncRuntimeError::CallCancelled,
        )
}

/// Gives up every call that a session handed over as it ended.
pub fn cancel_waiting<T, S>(ready: HeldReady<T, AsyncRequest<S>>) -> (result: Vec<Answer>)
    requires
        exists|next: u64| #[trigger] held_in_order(ready, next),
    ensures
        all_cancelled(held_ready(ready), result@),
{
    let ghost next = choose|next: u64| #[trigger] held_in_order(ready, next);
    let ghost all = held_ready(ready);
    let mut left = ready;
    let mut told: Vec<Answer> = Vec::new();
    let ghost mut calls: Seq<ScheduledCall<T, AsyncRequest<S>>> = Seq::empty();
    let mut done = false;
    while !done
        invariant
            held_in_order(left, next),
            calls.no_duplicates(),
            forall|call: ScheduledCall<T, AsyncRequest<S>>| #[trigger]
                is_held(all, call) <==> is_held(held_ready(left), call) || calls.contains(call),
            forall|call: ScheduledCall<T, AsyncRequest<S>>| #[trigger]
                is_held(held_ready(left), call) ==> !calls.contains(call),
            all_told(told@, last_words(requests_of(calls)), AsyncRuntimeError::CallCancelled),
            done ==> held_ready(left).dom() =~= Set::empty(),
        decreases held_below(held_ready(left), next as nat), (if done { 0int } else { 1int }),
    {
        let ghost before = held_ready(left);
        match take_next(&mut left) {
            None => {
                done = true;
            },
            Some(call) => {
                let ghost taken = call;
                let ghost after = held_ready(left);
                proof {
                    lemma_next_out_leaves_the_others(before, after, next, taken);
                    lemma_fewer_held(before, after, taken, next as nat);
                    assert(requests_of(calls.push(taken)).drop_last() =~= requests_of(calls));
                }
                if let Some(answer) = call.request.dismiss() {
                    told.push(answer);
                }
                proof {
                    let longer = calls.push(taken);
                    assert forall|other: ScheduledCall<T, AsyncRequest<S>>| #[trigger]
                        longer.contains(other) <==> calls.contains(other) || other == taken by {
                        if calls.contains(other) {
                            let i = choose|i: int| 0 <= i < calls.len() && calls[i] == other;
                            assert(longer[i] == other);
                        }
                        assert(longer[calls.len() as int] == taken);
                    }
                    calls = longer;
                }
            },
        }
    }
    proof {
        assert forall|call: ScheduledCall<T, AsyncRequest<S>>| !#[trigger]
            is_held(held_ready(left), call) by {
            if is_held(held_ready(left), call) {
                let (d, c, p, i) = choose|d: PluginKey, c: PluginKey, p: ExecutionPathId, i: int|
                    #[trigger]
                    waits(held_ready(left), d, c, p, i) && waiting(held_ready(left), d, c, p)[i]
                        == call;
                law_waiting_call_is_held(held_ready(left), d, c, p, i);
            }
        }
        assert(each_once(all, calls));
    }
    told
}

/// Ends a session: it takes up nothing more, and every call that still waits is answered that it
/// was cancelled.
pub fn end_session<T, S, D>(session: &mut AsyncScheduler<T, AsyncRequest<S>, D>) -> (result: Vec<
    Answer,
>)
    requires
        old(session).wf(),
    ensures
        final(session).wf(),
        final(session)@ == (SchedulerView { closed: true, ready: Map::empty(), ..old(session)@ }),
        all_cancelled(old(session)@.ready, result@),
{
    let waiting = session.close();
    cancel_waiting(waiting)
}

/// Ending a session a second time changes nothing and tells nobody anything.
pub proof fn law_ending_twice_changes_nothing<T, S>(
    ready: Ready<ScheduledCall<T, AsyncRequest<S>>>,
    told: Seq<Answer>,
)
    requires
        ready == Map::<usize, Level<ScheduledCall<T, AsyncRequest<S>>>>::empty(),
        all_cancelled(ready, told),
    ensures
        told.len() == 0,
{
    let calls = choose|calls: Seq<ScheduledCall<T, AsyncRequest<S>>>| #[trigger]
        each_once(ready, calls) && all_told(
            told,
            last_words(requests_of(calls)),
            AsyncRuntimeError::CallCancelled,
        );
    if calls.len() > 0 {
        assert(calls.contains(calls[0]));
        let (d, c, p, i) = choose|d: PluginKey, c: PluginKey, p: ExecutionPathId, i: int| #[trigger]
            waits(ready, d, c, p, i) && waiting(ready, d, c, p)[i] == calls[0];
        law_waiting_call_is_held(ready, d, c, p, i);
    }
}

/// A session that ends leaves no caller waiting: of every call that waits, if its guard is armed,
/// the caller hears that the call was cancelled.
pub proof fn law_ended_session_leaves_nobody_waiting<T, S>(
    ready: Ready<ScheduledCall<T, AsyncRequest<S>>>,
    told: Seq<Answer>,
    destination: PluginKey,
    caller: PluginKey,
    path: ExecutionPathId,
    i: int,
)
    requires
        all_cancelled(ready, told),
        waits(ready, destination, caller, path, i),
        waiting(ready, destination, caller, path)[i].request.response@.armed,
        waiting(ready, destination, caller, path)[i].request.response@.sender is Some,
    ensures
        hears(
            told,
            waiting(ready, destination, caller, path)[i].request.response@.sender->0,
            AsyncRuntimeError::CallCancelled,
        ),
{
    let calls = choose|calls: Seq<ScheduledCall<T, AsyncRequest<S>>>| #[trigger]
        each_once(ready, calls) && all_told(
            told,
            last_words(requests_of(calls)),
            AsyncRuntimeError::CallCancelled,
        );
    let call = waiting(ready, destination, caller, path)[i];
    assert(is_held(ready, call));
    assert(calls.contains(call));
    let k = choose|k: int| 0 <= k < calls.len() && calls[k] == call;
    assert(requests_of(calls)[k] == call.request);
    law_armed_guards_are_heard(requests_of(calls), told, k);
}

proof fn lemma_word_of_a_request<S>(requests: Seq<AsyncRequest<S>>, k: int)
    requires
        0 <= k < last_words(requests).len(),
    ensures
        exists|i: int|
            0 <= i < requests.len() && (#[trigger] requests[i]).response@.armed
                && requests[i].response@.sender == Some(last_words(requests)[k]),
    decreases requests.len(),
{
    if requests.len() > 0 {
        let earlier = requests.drop_last();
        if k < last_words(earlier).len() {
            lemma_word_of_a_request(earlier, k);
            let i = choose|i: int|
                0 <= i < earlier.len() && (#[trigger] earlier[i]).response@.armed
                    && earlier[i].response@.sender == Some(last_words(earlier)[k]);
            assert(requests[i] == earlier[i]);
        } else {
            assert(requests[requests.len() - 1].response@.armed);
        }
    }
}

/// A session that ends tells nobody else anything: whoever is told waits for a call that the
/// session holds, and is told that it was cancelled.
pub proof fn law_ended_session_tells_its_callers_alone<T, S>(
    ready: Ready<ScheduledCall<T, AsyncRequest<S>>>,
    told: Seq<Answer>,
    k: int,
)
    requires
        all_cancelled(ready, told),
        0 <= k < told.len(),
    ensures
        failed_with(told[k].response, AsyncRuntimeError::CallCancelled),
        exists|call: ScheduledCall<T, AsyncRequest<S>>| #[trigger]
            is_held(ready, call) && call.request.response@.sender == Some(told[k].sender),
{
    let calls = choose|calls: Seq<ScheduledCall<T, AsyncRequest<S>>>| #[trigger]
        each_once(ready, calls) && all_told(
            told,
            last_words(requests_of(calls)),
            AsyncRuntimeError::CallCancelled,
        );
    let requests = requests_of(calls);
    assert(tells(told[k], last_words(requests)[k], AsyncRuntimeError::CallCancelled));
    lemma_word_of_a_request(requests, k);
    let i = choose|i: int|
        0 <= i < requests.len() && (#[trigger] requests[i]).response@.armed
            && requests[i].response@.sender == Some(last_words(requests)[k]);
    assert(calls.contains(calls[i]));
    assert(requests[i] == calls[i].request);
}

/// A session that has ended takes up no call, and everybody who waited in it has heard.
pub proof fn law_ended_session_takes_up_nothing<T, S, D>(
    session: &mut AsyncScheduler<T, AsyncRequest<S>, D>,
    later: &mut AsyncScheduler<T, AsyncRequest<S>, D>,
    told: Vec<Answer>,
    caller: PluginKey,
    path: ExecutionPathId,
    destination: PluginKey,
    target: T,
    request: AsyncRequest<S>,
    result: Result<(), AsyncRequest<S>>,
)
    requires
        call_ensures(end_session::<T, S, D>, (session,), told),
        final(session)@ == old(later)@,
        call_ensures(
            AsyncScheduler::<T, AsyncRequest<S>, D>::schedule,
            (later, caller, path, destination, target, request),
            result,
        ),
    ensures
        result == Err::<(), AsyncRequest<S>>(request),
        final(later)@ == final(session)@,
        final(session)@.closed,
        final(session)@.drivers == old(session)@.drivers,
        forall|d: PluginKey, c: PluginKey, p: ExecutionPathId, i: int|
            #[trigger] waits(old(session)@.ready, d, c, p, i) && waiting(
                old(session)@.ready,
                d,
                c,
                p,
            )[i].request.response@.armed && waiting(
                old(session)@.ready,
                d,
                c,
                p,
            )[i].request.response@.sender is Some ==> hears(
                told@,
                waiting(old(session)@.ready, d, c, p)[i].request.response@.sender->0,
                AsyncRuntimeError::CallCancelled,
            ),
{
    let ready = old(session)@.ready;
    assert forall|d: PluginKey, c: PluginKey, p: ExecutionPathId, i: int|
        #[trigger] waits(ready, d, c, p, i) && waiting(ready, d, c, p)[i].request.response@.armed
            && waiting(ready, d, c, p)[i].request.response@.sender is Some implies hears(
        told@,
        waiting(ready, d, c, p)[i].request.response@.sender->0,
        AsyncRuntimeError::CallCancelled,
    ) by {
        law_ended_session_leaves_nobody_waiting(ready, told@, d, c, p, i);
    }
}

} // verus!
