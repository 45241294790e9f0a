//! Dispatch sessions: the locks that they take, and how their tasks are polled.

use crate::scheduler::SchedulerSlot;
use vstd::prelude::*;

verus! {

/// A lock that a session takes before it starts. Locks are taken in the order of their numbers.
pub struct SessionLock<M> {
    pub id: u64,
    pub mutex: M,
}

/// Hands out the numbers of locks, from one upwards.
pub struct LockIds {
    next: u64,
}

impl View for LockIds {
    type V = u64;

    closed spec fn view(&self) -> u64 {
        self.next
    }
}

impl LockIds {
    /// No number has been handed out.
    pub fn new() -> (result: Self)
        ensures
            result@ == 1,
    {
        LockIds { next: 1 }
    }

    /// The number that the next lock gets.
    pub fn next(&self) -> (result: u64)
        ensures
            result == self@,
    {
        self.next
    }
}

/// A lock with a number of its own.
pub fn new_lock<M>(ids: &mut LockIds, mutex: M) -> (result: SessionLock<M>)
    requires
        old(ids)@ < u64::MAX,
    ensures
        result == (SessionLock { id: old(ids)@, mutex }),
        final(ids)@ == old(ids)@ + 1,
{
    let id = ids.next;
    ids.next = ids.next + 1;
    SessionLock { id, mutex }
}

/// A lock with number `id` is among `locks`.
pub open spec fn has_lock<M>(locks: Seq<SessionLock<M>>, id: u64) -> bool {
    exists|i: int| 0 <= i < locks.len() && (#[trigger] locks[i]).id == id
}

/// The numbers of the locks rise.
pub open spec fn in_order<M>(locks: Seq<SessionLock<M>>) -> bool {
    forall|i: int, j: int|
        #![trigger locks[i], locks[j]]
        0 <= i < j < locks.len() ==> locks[i].id < locks[j].id
}

/// The locks of several plugins as one session takes them: each once, in the order of their
/// numbers.
pub fn merge_locks<M>(locks: Vec<SessionLock<M>>) -> (result: Vec<SessionLock<M>>)
    ensures
        in_order(result@),
        forall|id: u64| #[trigger] has_lock(result@, id) <==> has_lock(locks@, id),
        forall|i: int| 0 <= i < result@.len() ==> locks@.contains(#[trigger] result@[i]),
{
    let ghost all = locks@;
    let mut merged: Vec<SessionLock<M>> = Vec::new();
    for lock in it: locks
        invariant
            it.seq() == all,
            in_order(merged@),
            forall|id: u64| #[trigger]
                has_lock(merged@, id) <==> has_lock(all.take(it.index()), id),
            forall|i: int| 0 <= i < merged@.len() ==> all.contains(#[trigger] merged@[i]),
    {
        let ghost at = it.index();
        assert(lock == all[at]);
        let mut place: usize = 0;
        while place < merged.len() && merged[place].id < lock.id
            invariant
                place <= merged@.len(),
                forall|i: int| 0 <= i < place ==> (#[trigger] merged@[i]).id < lock.id,
            decreases merged.len() - place,
        {
            place = place + 1;
        }
        let known = place < merged.len() && merged[place].id == lock.id;
        let ghost before = merged@;
        let ghost id = lock.id;
        if !known {
            merged.insert(place, lock);
            proof {
                assert forall|i: int| 0 <= i < merged@.len() implies all.contains(
                    #[trigger] merged@[i],
                ) by {
                    if i < place {
                        assert(merged@[i] == before[i]);
                    } else if i > place {
                        assert(merged@[i] == before[i - 1]);
                    }
                }
            }
        }
        proof {
            let longer = all.take(at + 1);
            assert(longer[at].id == id);
            assert forall|other: u64| #[trigger] has_lock(merged@, other) <==> has_lock(
                longer,
                other,
            ) by {
                if has_lock(merged@, other) {
                    let i = choose|i: int|
                        0 <= i < merged@.len() && (#[trigger] merged@[i]).id == other;
                    if other != id {
                        if known || i < place {
                            assert(before[i].id == other);
                        } else {
                            assert(before[i - 1].id == other);
                        }
                        assert(has_lock(before, other));
                        let k = choose|k: int|
                            0 <= k < all.take(at).len() && (#[trigger] all.take(at)[k]).id == other;
                        assert(longer[k].id == other);
                    }
                }
                if has_lock(longer, other) {
                    let k = choose|k: int| 0 <= k < longer.len() && (#[trigger] longer[k]).id == other;
                    if k == at {
                        assert(merged@[place as int].id == id);
                    } else {
                        assert(all.take(at)[k].id == other);
                        assert(has_lock(before, other));
                        let i = choose|i: int|
                            0 <= i < before.len() && (#[trigger] before[i]).id == other;
                        if known || i < place {
                            assert(merged@[i].id == other);
                        } else {
                            assert(merged@[i + 1].id == other);
                        }
                    }
                }
            }
        }
    }
    assert(all.take(all.len() as int) =~= all);
    merged
}

/// Two sessions take the locks that they share in the same order, so neither can hold one that
/// the other waits for while it waits for one that the other holds.
pub proof fn law_shared_locks_are_taken_in_one_order<M>(
    left: Seq<SessionLock<M>>,
    right: Seq<SessionLock<M>>,
    i: int,
    j: int,
    k: int,
    l: int,
)
    requires
        in_order(left),
        in_order(right),
        0 <= i < left.len(),
        0 <= j < left.len(),
        0 <= k < right.len(),
        0 <= l < right.len(),
        left[i].id == right[k].id,
        left[j].id == right[l].id,
    ensures
        i < j <==> k < l,
{
}

/// The tasks that a session was given and has not taken up.
pub struct SessionShared<T> {
    pending: Vec<T>,
}

impl<T> View for SessionShared<T> {
    type V = Seq<T>;

    closed spec fn view(&self) -> Seq<T> {
        self.pending@
    }
}

impl<T> SessionShared<T> {
    /// No task waits.
    pub fn new() -> (result: Self)
        ensures
            result@ == Seq::<T>::empty(),
    {
        SessionShared { pending: Vec::new() }
    }

    /// Gives the session a task.
    pub fn spawn(&mut self, task: T)
        ensures
            final(self)@ == old(self)@.push(task),
    {
        self.pending.push(task);
    }

    /// Takes every task that waits.
    pub fn take_pending(&mut self) -> (result: Vec<T>)
        ensures
            result@ == old(self)@,
            final(self)@ == Seq::<T>::empty(),
    {
        let mut tasks: Vec<T> = Vec::new();
        core::mem::swap(&mut tasks, &mut self.pending);
        tasks
    }
}

/// The session that the current thread works for: it is entered by attaching it and left by
/// releasing the guard.
pub type CurrentSession<S> = SchedulerSlot<S>;

/// What a session's future does within one poll.
#[derive(Clone, Copy, Debug, PartialEq, Eq, Structural)]
pub enum SessionStep {
    /// It polls the root future.
    Root,
    /// It polls its tasks for one that has finished.
    Tasks,
    /// It polls the root future again, now that no task goes on.
    RootAgain,
    /// The poll ends, with the result of the root future or without.
    Done { ready: bool },
}

impl SessionStep {
    /// What follows once the root future has been polled: its result ends the poll, and so
    /// does a second poll without one.
    pub fn root_polled(self, ready: bool) -> (result: SessionStep)
        requires
            self == SessionStep::Root || self == SessionStep::RootAgain,
        ensures
            result == if self == SessionStep::Root && !ready {
                SessionStep::Tasks
            } else {
                SessionStep::Done { ready }
            },
    {
        match self {
            SessionStep::Root => if ready {
                SessionStep::Done { ready }
            } else {
                SessionStep::Tasks
            },
            _ => SessionStep::Done { ready },
        }
    }

    /// What follows once the tasks have been polled: they are polled as long as one finishes.
    pub fn tasks_polled(self, finished: bool) -> (result: SessionStep)
        requires
            self == SessionStep::Tasks,
        ensures
            result == if finished {
                SessionStep::Tasks
            } else {
                SessionStep::RootAgain
            },
    {
        if finished {
            SessionStep::Tasks
        } else {
            SessionStep::RootAgain
        }
    }
}

/// A session that holds a lock and waits for another waits for one with a greater number, so no
/// two sessions wait for each other.
pub proof fn law_waits_lead_to_greater_numbers<M>(locks: Seq<SessionLock<M>>, held: int, awaited: int)
    requires
        in_order(locks),
        0 <= held < awaited < locks.len(),
    ensures
        locks[held].id < locks[awaited].id,
        has_lock(locks, locks[held].id),
        has_lock(locks, locks[awaited].id),
{
    assert(has_lock(locks, locks[held].id));
    assert(has_lock(locks, locks[awaited].id));
}

/// The result of the root future ends a poll at once, whenever it comes. Without it the tasks are
/// polled after the first poll of the root future, and the poll ends after the second.
pub proof fn law_root_result_ends_the_poll(step: SessionStep, ready: bool, result: SessionStep)
    requires
        step == SessionStep::Root || step == SessionStep::RootAgain,
        call_ensures(SessionStep::root_polled, (step, ready), result),
    ensures
        result == (SessionStep::Done { ready: true }) <==> ready,
        result == SessionStep::Tasks <==> !ready && step == SessionStep::Root,
        result == (SessionStep::Done { ready: false }) <==> !ready && step
            == SessionStep::RootAgain,
{
}

/// The tasks are polled again as long as one of them finishes, and then the root future is.
pub proof fn law_tasks_are_polled_until_none_finishes(
    step: SessionStep,
    finished: bool,
    result: SessionStep,
)
    requires
        step == SessionStep::Tasks,
        call_ensures(SessionStep::tasks_polled, (step, finished), result),
    ensures
        result == SessionStep::Tasks <==> finished,
        result == SessionStep::RootAgain <==> !finished,
{
}

/// Two locks that are made one after the other have different numbers, the later one the greater.
pub proof fn law_locks_have_their_own_numbers<M>(
    ids: &mut LockIds,
    later: &mut LockIds,
    first_mutex: M,
    second_mutex: M,
    first: SessionLock<M>,
    second: SessionLock<M>,
)
    requires
        call_ensures(new_lock::<M>, (ids, first_mutex), first),
        old(later)@ == final(ids)@,
        call_ensures(new_lock::<M>, (later, second_mutex), second),
    ensures
        first.id < second.id,
        first.mutex == first_mutex,
        second.mutex == second_mutex,
{
}

} // verus!
