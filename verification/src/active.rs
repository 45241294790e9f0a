//! The calls that run in a plugin's store.

use crate::call::{call_outcome, finish_call};
use crate::driver::{all_told, hears};
use crate::error::{AsyncRuntimeError, DispatchError, RuntimeFault};
use crate::interface::Function;
use crate::request::{ActiveCall, Answer, AsyncRequest, Response, tells};
use crate::value::Value;
use futures::channel::oneshot::Sender;
use std::collections::HashMap;
use vstd::prelude::*;

verus! {

/// A call that runs, and the caller that waits for it.
pub struct ActiveCallRecord<S> {
    pub active: ActiveCall<S>,
    pub response: Option<Sender<Response>>,
}

/// The callers that wait for `records`, in order.
pub open spec fn record_callers<S>(records: Seq<ActiveCallRecord<S>>) -> Seq<Sender<Response>>
    decreases records.len(),
{
    if records.len() == 0 {
        Seq::empty()
    } else {
        let earlier = record_callers(records.drop_last());
        match records.last().response {
            Some(sender) => earlier.push(sender),
            None => earlier,
        }
    }
}

/// Tells every caller that waits for one of these calls of an error.
pub fn fail_active_calls<S>(active: Vec<ActiveCallRecord<S>>, error: &AsyncRuntimeError) -> (result:
    Vec<Answer>)
    ensures
        all_told(result@, record_callers(active@), *error),
{
    let ghost all = active@;
    let mut told: Vec<Answer> = Vec::new();
    for record in it: active
        invariant
            it.seq() == all,
            all_told(told@, record_callers(all.take(it.index())), *error),
    {
        assert(record == all[it.index()]);
        assert(all.take(it.index() + 1).drop_last() =~= all.take(it.index()));
        if let Some(sender) = record.response {
            told.push(Answer::failure(sender, error.clone()));
        }
    }
    assert(all.take(all.len() as int) =~= all);
    told
}

/// The calls that run, by task.
pub struct ActiveCalls<S> {
    calls: HashMap<u64, ActiveCallRecord<S>>,
}

impl<S> View for ActiveCalls<S> {
    type V = Map<u64, ActiveCallRecord<S>>;

    closed spec fn view(&self) -> Map<u64, ActiveCallRecord<S>> {
        self.calls@
    }
}

/// `records` are the calls of `calls`, each once, in the order of `tasks`.
pub open spec fn drained<S>(
    calls: Map<u64, ActiveCallRecord<S>>,
    tasks: Seq<u64>,
    records: Seq<ActiveCallRecord<S>>,
) -> bool {
    &&& tasks.no_duplicates()
    &&& forall|task: u64| #[trigger] tasks.contains(task) <==> calls.contains_key(task)
    &&& records.len() == tasks.len()
    &&& forall|i: int| 0 <= i < tasks.len() ==> #[trigger] records[i] == calls[tasks[i]]
}

impl<S> ActiveCalls<S> {
    /// No call runs.
    pub fn new() -> (result: Self)
        ensures
            result@ == Map::<u64, ActiveCallRecord<S>>::empty(),
    {
        ActiveCalls { calls: HashMap::new() }
    }

    /// A call starts to run. The caller now waits for its task.
    pub fn started(&mut self, task: u64, request: AsyncRequest<S>)
        ensures
            final(self)@ == old(self)@.insert(
                task,
                ActiveCallRecord { active: request.active, response: request.response@.sender },
            ),
    {
        broadcast use vstd::std_specs::hash::group_hash_axioms;

        let mut guard = request.response;
        let record = ActiveCallRecord { active: request.active, response: guard.take() };
        self.calls.insert(task, record);
    }

    /// An attempt to start a call has been made. If the engine refused it, the caller has an
    /// answer. If not, the call runs, and what it asked for is handed out with it.
    pub fn attempted<C>(
        &mut self,
        task: u64,
        request: AsyncRequest<S>,
        attempt: Result<C, wasmtime::Error>,
    ) -> (result: Result<(C, Function), Option<Answer>>)
        ensures
            match (attempt, result) {
                (Ok(call), Ok((running, function))) => {
                    &&& running == call
                    &&& function == request.function
                    &&& final(self)@ == old(self)@.insert(
                        task,
                        ActiveCallRecord {
                            active: request.active,
                            response: request.response@.sender,
                        },
                    )
                },
                (Err(error), Err(told)) => {
                    &&& final(self)@ == old(self)@
                    &&& match request.response@.sender {
                        Some(sender) => told == Some(
                            Answer {
                                sender,
                                response: Err(
                                    DispatchError::RuntimeException(RuntimeFault::Engine(error)),
                                ),
                            },
                        ),
                        None => told is None,
                    }
                },
                _ => false,
            },
    {
        match attempt {
            Ok(call) => {
                let function = request.function;
                self.started(task, request);
                Ok((call, function))
            },
            Err(error) => Err(
                request.respond(Err(DispatchError::RuntimeException(RuntimeFault::Engine(error)))),
            ),
        }
    }

    /// A call has run. The caller, if it still waits for the task, has an answer.
    pub fn finished(
        &mut self,
        task: u64,
        function: &Function,
        buffer: Vec<Value>,
        call_result: Result<(), wasmtime::Error>,
    ) -> (result: Option<Answer>)
        ensures
            final(self)@ == old(self)@.remove(task),
            match result {
                Some(answer) => old(self)@.contains_key(task) && old(self)@[task].response == Some(
                    answer.sender,
                ) && call_outcome(*function, buffer@, call_result, answer.response),
                None => !old(self)@.contains_key(task) || old(self)@[task].response is None,
            },
    {
        broadcast use vstd::std_specs::hash::group_hash_axioms;

        match self.calls.remove(&task) {
            Some(record) => match record.response {
                Some(sender) => Some(
                    Answer { sender, response: finish_call(function, buffer, call_result) },
                ),
                None => None,
            },
            None => {
                assert(self.calls@ =~= old(self)@.remove(task));
                None
            },
        }
    }

    /// Takes out every call.
    pub fn take(&mut self) -> (result: Vec<ActiveCallRecord<S>>)
        ensures
            final(self)@ == Map::<u64, ActiveCallRecord<S>>::empty(),
            exists|tasks: Seq<u64>| drained(old(self)@, tasks, result@),
    {
        broadcast use vstd::std_specs::hash::group_hash_axioms;

        let ghost before = self@;
        let mut tasks: Vec<u64> = Vec::new();
        for task in it: self.calls.keys()
            invariant
                before == self@,
                it.seq().no_duplicates(),
                it.seq().unref().to_set() == before.dom(),
                tasks@.len() == it.index(),
                forall|i: int| 0 <= i < it.index() ==> #[trigger] tasks@[i] == *it.seq()[i],
                it.index() == it.seq().len() ==> tasks@ == it.seq().unref(),
        {
            tasks.push(*task);
            assert(it.index() + 1 == it.seq().len() ==> tasks@ =~= it.seq().unref());
        }
        assert(tasks@.to_set() == before.dom());
        assert forall|task: u64| #[trigger] tasks@.contains(task) <==> before.contains_key(task) by {
            assert(tasks@.to_set().contains(task) <==> tasks@.contains(task));
        }
        let mut records: Vec<ActiveCallRecord<S>> = Vec::new();
        let mut i: usize = 0;
        while i < tasks.len()
            invariant
                i <= tasks@.len(),
                tasks@.no_duplicates(),
                forall|task: u64| #[trigger] tasks@.contains(task) <==> before.contains_key(task),
                records@.len() == i,
                forall|j: int| 0 <= j < i ==> #[trigger] records@[j] == before[tasks@[j]],
                forall|task: u64| #[trigger]
                    self@.contains_key(task) <==> (exists|j: int|
                        i <= j < tasks@.len() && #[trigger] tasks@[j] == task),
                forall|task: u64| #[trigger]
                    self@.contains_key(task) ==> self@[task] == before[task],
            decreases tasks.len() - i,
        {
            let task = tasks[i];
            assert(self@.contains_key(task));
            if let Some(record) = self.calls.remove(&task) {
                records.push(record);
            }
            i = i + 1;
        }
        assert(self@ =~= Map::empty());
        assert(drained(before, tasks@, records@));
        records
    }
}

/// What a plugin that is being linked shares with the instance that it becomes.
pub struct AsyncLinkage<S> {
    active_calls: ActiveCalls<S>,
}

impl<S> AsyncLinkage<S> {
    /// A linkage in which no call runs.
    pub fn new() -> (result: Self)
        ensures
            result.held() == Map::<u64, ActiveCallRecord<S>>::empty(),
    {
        AsyncLinkage { active_calls: ActiveCalls::new() }
    }

    /// The calls that run.
    pub closed spec fn held(&self) -> Map<u64, ActiveCallRecord<S>> {
        self.active_calls@
    }

    /// The calls that run.
    pub fn active_calls(&self) -> (result: &ActiveCalls<S>)
        ensures
            result@ == self.held(),
    {
        &self.active_calls
    }

    /// The calls that run, for the instance that the plugin has become.
    pub fn into_active_calls(self) -> (result: ActiveCalls<S>)
        ensures
            result@ == self.held(),
    {
        self.active_calls
    }
}

/// Of calls that ran, each one's caller is told, in the order of the records: none that waits is
/// left out, none is told twice, and nobody else is told.
pub proof fn law_each_record_has_its_caller<S>(
    left: Seq<ActiveCallRecord<S>>,
    record: ActiveCallRecord<S>,
    right: Seq<ActiveCallRecord<S>>,
)
    ensures
        record_callers(Seq::<ActiveCallRecord<S>>::empty()).len() == 0,
        record_callers(left + seq![record] + right) == record_callers(left) + (match record.response {
            Some(sender) => seq![sender],
            None => Seq::empty(),
        }) + record_callers(right),
    decreases right.len(),
{
    let all = left + seq![record] + right;
    if right.len() == 0 {
        assert(all.drop_last() =~= left);
        assert(all.last() == record);
        assert(record_callers(right).len() == 0);
    } else {
        law_each_record_has_its_caller(left, record, right.drop_last());
        assert(all.drop_last() =~= left + seq![record] + right.drop_last());
        assert(all.last() == right.last());
    }
}

/// When a store fails, the caller of every call that ran in it hears of the error.
pub proof fn law_failed_store_leaves_nobody_waiting<S>(
    calls: Map<u64, ActiveCallRecord<S>>,
    tasks: Seq<u64>,
    records: Seq<ActiveCallRecord<S>>,
    told: Seq<Answer>,
    error: AsyncRuntimeError,
    task: u64,
)
    requires
        drained(calls, tasks, records),
        all_told(told, record_callers(records), error),
        calls.contains_key(task),
        calls[task].response is Some,
    ensures
        hears(told, calls[task].response->0, error),
{
    assert(tasks.contains(task));
    let i = choose|i: int| 0 <= i < tasks.len() && tasks[i] == task;
    assert(records[i] == calls[task]);
    let left = records.take(i);
    let right = records.skip(i + 1);
    law_each_record_has_its_caller(left, records[i], right);
    assert(left + seq![records[i]] + right =~= records);
    let k = record_callers(left).len() as int;
    assert(record_callers(records)[k] == calls[task].response->0);
    assert(tells(told[k], record_callers(records)[k], error));
}

/// A call that starts is remembered with its caller, and a call that comes back is answered to the
/// caller that was remembered for it. No other call is touched either way.
pub proof fn law_running_call_keeps_its_caller<S>(
    before: &mut ActiveCalls<S>,
    after: &mut ActiveCalls<S>,
    task: u64,
    request: AsyncRequest<S>,
    function: &Function,
    buffer: Vec<Value>,
    call_result: Result<(), wasmtime::Error>,
    result: Option<Answer>,
    other: u64,
)
    requires
        call_ensures(ActiveCalls::<S>::started, (before, task, request), ()),
        final(before)@ == old(after)@,
        call_ensures(
            ActiveCalls::<S>::finished,
            (after, task, function, buffer, call_result),
            result,
        ),
    ensures
        final(before)@.contains_key(task),
        final(before)@[task].active == request.active,
        result is Some <==> request.response@.sender is Some,
        result matches Some(answer) ==> request.response@.sender == Some(answer.sender)
            && call_outcome(*function, buffer@, call_result, answer.response),
        !final(after)@.contains_key(task),
        other != task ==> (final(after)@.contains_key(other) <==> old(before)@.contains_key(other)),
        other != task && old(before)@.contains_key(other) ==> final(after)@[other] == old(
            before,
        )@[other],
{
}

/// A call that the engine takes runs, and its caller is remembered. One that the engine refuses is
/// answered with the engine's error, and does not run.
pub proof fn law_refused_attempt_is_answered<S, C>(
    calls: &mut ActiveCalls<S>,
    task: u64,
    request: AsyncRequest<S>,
    attempt: Result<C, wasmtime::Error>,
    result: Result<(C, Function), Option<Answer>>,
)
    requires
        call_ensures(ActiveCalls::<S>::attempted::<C>, (calls, task, request, attempt), result),
    ensures
        result is Ok <==> attempt is Ok,
        attempt is Ok ==> result->Ok_0 == (attempt->Ok_0, request.function)
            && final(calls)@.contains_key(task) && final(calls)@[task].response
            == request.response@.sender && final(calls)@[task].active == request.active,
        attempt is Err ==> final(calls)@ == old(calls)@,
        attempt is Err ==> (result->Err_0 is Some <==> request.response@.sender is Some),
        attempt is Err && result->Err_0 is Some ==> request.response@.sender == Some(
            result->Err_0->0.sender,
        ) && result->Err_0->0.response == Err::<Value, DispatchError>(
            DispatchError::RuntimeException(RuntimeFault::Engine(attempt->Err_0)),
        ),
        forall|other: u64|
            other != task && #[trigger] old(calls)@.contains_key(other)
                ==> final(calls)@.contains_key(other) && final(calls)@[other] == old(calls)@[other],
{
}

} // verus!
