//! One turn of a dispatch session: the root future first, then a waiting call, then the drivers.

use crate::scheduler::{
    AsyncScheduler, HeldReady, ScheduledCall, SchedulerView, held_in_order, held_ready, next_taken,
};
use vstd::prelude::*;

verus! {

/// `drivers` without the one at `index`, whose place the last one takes.
pub open spec fn retired<D>(drivers: Seq<D>, index: int) -> Seq<D> {
    drivers.update(index, drivers.last()).drop_last()
}

/// A sweep over the drivers: those left, where it stands, and each driver that was polled with
/// whether it had finished.
pub struct Sweep<D> {
    pub left: Seq<D>,
    pub at: int,
    pub log: Seq<(D, bool)>,
}

/// A sweep that starts at `at` and hears `answers`, one per driver that it polls.
pub open spec fn sweep<D>(drivers: Seq<D>, at: int, answers: Seq<bool>) -> Sweep<D>
    decreases answers.len(),
{
    if answers.len() == 0 || at >= drivers.len() {
        Sweep { left: drivers, at, log: Seq::empty() }
    } else {
        let rest = if answers[0] {
            sweep(retired(drivers, at), at, answers.skip(1))
        } else {
            sweep(drivers, at + 1, answers.skip(1))
        };
        Sweep { log: seq![(drivers[at], answers[0])] + rest.log, ..rest }
    }
}

/// The drivers of a log.
pub open spec fn polled<D>(log: Seq<(D, bool)>) -> Seq<D> {
    log.map_values(|entry: (D, bool)| entry.0)
}

/// The drivers of a log that had not finished.
pub open spec fn unfinished<D>(log: Seq<(D, bool)>) -> Seq<D>
    decreases log.len(),
{
    if log.len() == 0 {
        Seq::empty()
    } else if log[0].1 {
        unfinished(log.skip(1))
    } else {
        seq![log[0].0] + unfinished(log.skip(1))
    }
}

proof fn lemma_retired<D>(drivers: Seq<D>, at: int)
    requires
        0 <= at < drivers.len(),
    ensures
        retired(drivers, at).len() == drivers.len() - 1,
        retired(drivers, at).take(at) == drivers.take(at),
        drivers.skip(at).to_multiset() == retired(drivers, at).skip(at).to_multiset().insert(
            drivers[at],
        ),
{
    broadcast use vstd::seq_lib::group_to_multiset_ensures;

    let shorter = retired(drivers, at);
    assert(shorter.take(at) =~= drivers.take(at));
    let tail = drivers.skip(at);
    assert(tail =~= seq![drivers[at]] + tail.skip(1));
    if at == drivers.len() - 1 {
        assert(shorter.skip(at) =~= Seq::empty());
        assert(tail =~= Seq::<D>::empty().push(drivers[at]));
    } else {
        let middle = tail.subrange(1, tail.len() - 1);
        assert(shorter.skip(at) =~= seq![drivers.last()] + middle);
        assert(tail =~= (seq![drivers[at]] + middle).push(drivers.last()));
        vstd::seq_lib::lemma_multiset_commutative(seq![drivers[at]], middle);
        vstd::seq_lib::lemma_multiset_commutative(seq![drivers.last()], middle);
        assert(seq![drivers[at]] =~= Seq::<D>::empty().push(drivers[at]));
        assert(seq![drivers.last()] =~= Seq::<D>::empty().push(drivers.last()));
        assert(tail.to_multiset() =~= shorter.skip(at).to_multiset().insert(drivers[at]));
    }
}

/// A sweep that hears enough answers polls every driver from `at` on once and no other, keeps
/// those that had not finished and those before `at`, and ends behind the last one.
pub proof fn law_sweep_polls_each_driver_once<D>(drivers: Seq<D>, at: int, answers: Seq<bool>)
    requires
        0 <= at <= drivers.len(),
        answers.len() >= drivers.len() - at,
    ensures
        ({
            let swept = sweep(drivers, at, answers);
            &&& swept.at == swept.left.len()
            &&& swept.log.len() == drivers.len() - at
            &&& polled(swept.log).to_multiset() == drivers.skip(at).to_multiset()
            &&& swept.left.len() >= at
            &&& swept.left.take(at) == drivers.take(at)
            &&& swept.left.skip(at).to_multiset() == unfinished(swept.log).to_multiset()
        }),
    decreases answers.len(),
{
    broadcast use vstd::seq_lib::group_to_multiset_ensures;

    let swept = sweep(drivers, at, answers);
    if at == drivers.len() {
        assert(polled(swept.log) =~= Seq::empty());
        assert(drivers.skip(at) =~= Seq::empty());
        assert(swept.left.skip(at) =~= unfinished(swept.log));
    } else {
        let first = drivers[at];
        let rest = if answers[0] {
            sweep(retired(drivers, at), at, answers.skip(1))
        } else {
            sweep(drivers, at + 1, answers.skip(1))
        };
        let single = seq![first];
        assert(single =~= Seq::<D>::empty().push(first));
        assert(polled(swept.log) =~= single + polled(rest.log));
        vstd::seq_lib::lemma_multiset_commutative(single, polled(rest.log));
        assert(swept.log.skip(1) =~= rest.log);
        if answers[0] {
            lemma_retired(drivers, at);
            law_sweep_polls_each_driver_once(retired(drivers, at), at, answers.skip(1));
            assert(polled(swept.log).to_multiset() =~= drivers.skip(at).to_multiset());
            assert(swept.left.take(at) =~= drivers.take(at));
        } else {
            law_sweep_polls_each_driver_once(drivers, at + 1, answers.skip(1));
            assert(drivers.skip(at) =~= single + drivers.skip(at + 1));
            vstd::seq_lib::lemma_multiset_commutative(single, drivers.skip(at + 1));
            assert(polled(swept.log).to_multiset() =~= drivers.skip(at).to_multiset());
            assert(swept.left.take(at) =~= swept.left.take(at + 1).take(at));
            assert(drivers.take(at) =~= drivers.take(at + 1).take(at));
            assert(swept.left[at] == swept.left.take(at + 1)[at]);
            assert(drivers.take(at + 1)[at] == first);
            assert(swept.left.skip(at) =~= single + swept.left.skip(at + 1));
            vstd::seq_lib::lemma_multiset_commutative(single, swept.left.skip(at + 1));
            vstd::seq_lib::lemma_multiset_commutative(single, unfinished(rest.log));
        }
    }
}

/// A sweep that has drivers left goes on with one more poll: the driver where it stands is
/// retired if it has finished, and passed over if not.
pub proof fn law_sweep_goes_on_by_one_poll<D>(
    drivers: Seq<D>,
    at: int,
    answers: Seq<bool>,
    ready: bool,
)
    requires
        sweep(drivers, at, answers).at < sweep(drivers, at, answers).left.len(),
    ensures
        ({
            let so_far = sweep(drivers, at, answers);
            sweep(drivers, at, answers.push(ready)) == (Sweep {
                left: if ready {
                    retired(so_far.left, so_far.at)
                } else {
                    so_far.left
                },
                at: if ready {
                    so_far.at
                } else {
                    so_far.at + 1
                },
                log: so_far.log.push((so_far.left[so_far.at], ready)),
            })
        }),
    decreases answers.len(),
{
    let longer = answers.push(ready);
    if answers.len() == 0 {
        reveal_with_fuel(sweep, 2);
        assert(longer.skip(1) =~= Seq::empty());
        assert(seq![(drivers[at], ready)] + Seq::<(D, bool)>::empty() =~= Seq::<
            (D, bool),
        >::empty().push((drivers[at], ready)));
    } else {
        assert(longer.skip(1) =~= answers.skip(1).push(ready));
        let head = seq![(drivers[at], answers[0])];
        let rest = if answers[0] {
            sweep(retired(drivers, at), at, answers.skip(1))
        } else {
            sweep(drivers, at + 1, answers.skip(1))
        };
        if answers[0] {
            law_sweep_goes_on_by_one_poll(retired(drivers, at), at, answers.skip(1), ready);
        } else {
            law_sweep_goes_on_by_one_poll(drivers, at + 1, answers.skip(1), ready);
        }
        assert(head + rest.log.push((rest.left[rest.at], ready)) =~= (head + rest.log).push(
            (rest.left[rest.at], ready),
        ));
    }
}

/// What a session's future does next.
#[derive(Clone, Copy, Debug, PartialEq, Eq, Structural)]
pub enum Phase {
    /// It polls the root future.
    Root,
    /// It hands a call to the plugin that the call is for.
    Admitting,
    /// It polls the driver at `index`, if there is one. `completed` says whether a driver
    /// finished in this sweep, `admitted` whether a call was handed out before it.
    Sweeping { index: usize, completed: bool, admitted: bool },
    /// The root future has its result.
    Finished,
}

/// What follows a poll of the root future.
pub enum Turn<T, R> {
    /// The session ends. The calls that still waited are dropped.
    Finish(HeldReady<T, R>),
    /// This call is handed to its plugin.
    Admit(ScheduledCall<T, R>),
    /// No call waits. The drivers are polled.
    Sweep,
}

/// What a session's future holds besides its root future.
#[verifier::ext_equal]
pub struct SchedulerFutureView<D> {
    pub drivers: Seq<D>,
    pub phase: Phase,
}

/// What a session's future holds besides its root future.
pub struct SchedulerFuture<D> {
    drivers: Vec<D>,
    phase: Phase,
}

impl<D> View for SchedulerFuture<D> {
    type V = SchedulerFutureView<D>;

    closed spec fn view(&self) -> SchedulerFutureView<D> {
        SchedulerFutureView { drivers: self.drivers@, phase: self.phase }
    }
}

impl<D> SchedulerFuture<D> {
    /// A future that has not been polled.
    pub fn new() -> (result: Self)
        ensures
            result@ == (SchedulerFutureView::<D> { drivers: Seq::empty(), phase: Phase::Root }),
    {
        SchedulerFuture { drivers: Vec::new(), phase: Phase::Root }
    }

    /// What comes next.
    pub fn phase(&self) -> (result: Phase)
        ensures
            result == self@.phase,
    {
        self.phase
    }

    /// Takes over the drivers that the scheduler took up, and starts a sweep.
    fn collect<T, R>(&mut self, scheduler: &mut AsyncScheduler<T, R, D>, admitted: bool)
        requires
            old(scheduler).wf(),
        ensures
            final(scheduler).wf(),
            final(scheduler)@ == (SchedulerView { drivers: Seq::empty(), ..old(scheduler)@ }),
            final(self)@ == (SchedulerFutureView {
                drivers: old(self)@.drivers + old(scheduler)@.drivers,
                phase: Phase::Sweeping { index: 0, completed: false, admitted },
            }),
    {
        let mut drivers = scheduler.take_drivers();
        self.drivers.append(&mut drivers);
        self.phase = Phase::Sweeping { index: 0, completed: false, admitted };
    }

    /// Takes the turn that follows a poll of the root future.
    pub fn root_polled<T, R>(&mut self, scheduler: &mut AsyncScheduler<T, R, D>, ready: bool)
        -> (result: Turn<T, R>)
        requires
            old(self)@.phase == Phase::Root,
            old(scheduler).wf(),
        ensures
            final(scheduler).wf(),
            match result {
                Turn::Finish(calls) => {
                    &&& ready
                    &&& held_ready(calls) == old(scheduler)@.ready
                    &&& held_in_order(calls, old(scheduler)@.next_sequence)
                    &&& final(scheduler)@ == (SchedulerView {
                        closed: true,
                        ready: Map::empty(),
                        ..old(scheduler)@
                    })
                    &&& final(self)@ == (SchedulerFutureView {
                        phase: Phase::Finished,
                        ..old(self)@
                    })
                },
                Turn::Admit(call) => {
                    &&& !ready
                    &&& next_taken(old(scheduler)@, final(scheduler)@, call)
                    &&& final(self)@ == (SchedulerFutureView {
                        phase: Phase::Admitting,
                        ..old(self)@
                    })
                },
                Turn::Sweep => {
                    &&& !ready
                    &&& old(scheduler)@.ready.dom() =~= Set::empty()
                    &&& final(scheduler)@ == (SchedulerView {
                        drivers: Seq::empty(),
                        ..old(scheduler)@
                    })
                    &&& final(self)@ == (SchedulerFutureView {
                        drivers: old(self)@.drivers + old(scheduler)@.drivers,
                        phase: Phase::Sweeping { index: 0, completed: false, admitted: false },
                    })
                },
            },
    {
        if ready {
            self.phase = Phase::Finished;
            return Turn::Finish(scheduler.close());
        }
        match scheduler.take_call() {
            Some(call) => {
                self.phase = Phase::Admitting;
                Turn::Admit(call)
            },
            None => {
                self.collect(scheduler, false);
                Turn::Sweep
            },
        }
    }

    /// Goes on once a call has been handed to its plugin.
    pub fn call_admitted<T, R>(&mut self, scheduler: &mut AsyncScheduler<T, R, D>)
        requires
            old(self)@.phase == Phase::Admitting,
            old(scheduler).wf(),
        ensures
            final(scheduler).wf(),
            final(scheduler)@ == (SchedulerView { drivers: Seq::empty(), ..old(scheduler)@ }),
            final(self)@ == (SchedulerFutureView {
                drivers: old(self)@.drivers + old(scheduler)@.drivers,
                phase: Phase::Sweeping { index: 0, completed: false, admitted: true },
            }),
    {
        self.collect(scheduler, true);
    }

    /// The driver that is to be polled, while a sweep has one left.
    pub fn driver_due(&mut self) -> (result: Option<&mut D>)
        ensures
            match result {
                Some(driver) => old(self)@.phase matches Phase::Sweeping { index, .. } && index
                    < old(self)@.drivers.len() && *driver == old(self)@.drivers[index as int]
                    && final(self)@ == (SchedulerFutureView {
                    drivers: old(self)@.drivers.update(index as int, *final(driver)),
                    ..old(self)@
                }),
                None => final(self)@ == old(self)@ && (old(self)@.phase matches Phase::Sweeping {
                    index,
                    ..
                } ==> index >= old(self)@.drivers.len()),
            },
    {
        match self.phase {
            Phase::Sweeping { index, .. } => {
                if index < self.drivers.len() {
                    Some(&mut self.drivers[index])
                } else {
                    None
                }
            },
            _ => None,
        }
    }

    /// Goes on once the driver that was due has been polled. One that finished is handed
    /// over.
    pub fn driver_polled(&mut self, ready: bool) -> (result: Option<D>)
        requires
            old(self)@.phase matches Phase::Sweeping { index, .. } && index
                < old(self)@.drivers.len(),
        ensures
            match old(self)@.phase {
                Phase::Sweeping { index, completed, admitted } => if ready {
                    &&& result == Some(old(self)@.drivers[index as int])
                    &&& final(self)@ == (SchedulerFutureView {
                        drivers: retired(old(self)@.drivers, index as int),
                        phase: Phase::Sweeping { index, completed: true, admitted },
                    })
                } else {
                    &&& result is None
                    &&& final(self)@ == (SchedulerFutureView {
                        phase: Phase::Sweeping {
                            index: (index + 1) as usize,
                            completed,
                            admitted,
                        },
                        ..old(self)@
                    })
                },
                _ => true,
            },
    {
        match self.phase {
            Phase::Sweeping { index, completed, admitted } => {
                if ready {
                    let driver = self.drivers.swap_remove(index);
                    self.phase = Phase::Sweeping { index, completed: true, admitted };
                    assert(self.drivers@ =~= retired(old(self)@.drivers, index as int));
                    Some(driver)
                } else {
                    assert(index < self.drivers.len());
                    self.phase = Phase::Sweeping { index: index + 1, completed, admitted };
                    None
                }
            },
            _ => None,
        }
    }

    /// Ends a sweep and says whether the root future is polled again at once: it is where a
    /// call was handed out or a driver finished. Else the session waits to be woken.
    pub fn sweep_done(&mut self) -> (result: bool)
        requires
            old(self)@.phase matches Phase::Sweeping { index, .. } && index
                >= old(self)@.drivers.len(),
        ensures
            old(self)@.phase matches Phase::Sweeping { completed, admitted, .. } && result == (
            completed || admitted),
            final(self)@ == (SchedulerFutureView { phase: Phase::Root, ..old(self)@ }),
    {
        let again = match self.phase {
            Phase::Sweeping { completed, admitted, .. } => completed || admitted,
            _ => false,
        };
        self.phase = Phase::Root;
        again
    }
}

/// A driver that has finished goes alone: every other one stays, each in its place but for the
/// last, which takes the place that is free.
pub proof fn law_finished_driver_goes_alone<D>(drivers: Seq<D>, index: int)
    requires
        0 <= index < drivers.len(),
    ensures
        retired(drivers, index).len() == drivers.len() - 1,
        forall|i: int|
            0 <= i < drivers.len() - 1 && i != index ==> #[trigger] retired(drivers, index)[i]
                == drivers[i],
        index < drivers.len() - 1 ==> retired(drivers, index)[index] == drivers[drivers.len() - 1],
{
}

/// Each poll of a sweep asks the driver that stands where the sweep stands. While none has
/// finished, the drivers are polled in their order and all of them stay.
pub proof fn law_sweep_without_an_end_keeps_order<D>(drivers: Seq<D>, at: int, answers: Seq<bool>)
    requires
        0 <= at <= drivers.len(),
        answers.len() == drivers.len() - at,
        forall|i: int| 0 <= i < answers.len() ==> !#[trigger] answers[i],
    ensures
        sweep(drivers, at, answers).left == drivers,
        polled(sweep(drivers, at, answers).log) == drivers.skip(at),
    decreases answers.len(),
{
    if answers.len() > 0 {
        assert forall|i: int| 0 <= i < answers.skip(1).len() implies !#[trigger] answers.skip(1)[i] by {
            assert(!answers[i + 1]);
        }
        law_sweep_without_an_end_keeps_order(drivers, at + 1, answers.skip(1));
        let rest = sweep(drivers, at + 1, answers.skip(1));
        assert(sweep(drivers, at, answers).log == seq![(drivers[at], answers[0])] + rest.log);
        assert(polled(sweep(drivers, at, answers).log) =~= seq![drivers[at]] + polled(rest.log));
        assert(drivers.skip(at) =~= seq![drivers[at]] + drivers.skip(at + 1));
    } else {
        assert(polled(sweep(drivers, at, answers).log) =~= drivers.skip(at));
    }
}

/// The result of the root future ends the session before any call is handed out or any driver is
/// polled. Without it a call that waits is handed out first, and only where none waits are the
/// drivers polled, those that were attached meanwhile after the others.
pub proof fn law_root_result_comes_before_calls<T, R, D>(
    future: &mut SchedulerFuture<D>,
    scheduler: &mut AsyncScheduler<T, R, D>,
    ready: bool,
    result: Turn<T, R>,
)
    requires
        call_ensures(SchedulerFuture::<D>::root_polled, (future, scheduler, ready), result),
    ensures
        result is Finish <==> ready,
        result is Finish ==> final(scheduler)@.closed && final(future)@.phase == Phase::Finished,
        result matches Turn::Finish(calls) ==> held_ready(calls) == old(scheduler)@.ready,
        result is Admit ==> final(scheduler)@.closed == old(scheduler)@.closed
            && final(future)@.phase == Phase::Admitting && final(future)@.drivers
            == old(future)@.drivers,
        result is Sweep ==> old(scheduler)@.ready.dom() =~= Set::empty() && final(future)@.drivers
            == old(future)@.drivers + old(scheduler)@.drivers && final(future)@.phase == (
        Phase::Sweeping { index: 0, completed: false, admitted: false }),
{
}

/// One poll of a driver is one step of a sweep: a driver that has finished is handed out and its
/// place is polled next, and one that goes on is passed by. That a driver finished is remembered.
pub proof fn law_driver_poll_is_one_step_of_a_sweep<D>(
    future: &mut SchedulerFuture<D>,
    ready: bool,
    result: Option<D>,
)
    requires
        old(future)@.phase is Sweeping,
        old(future)@.phase->index < old(future)@.drivers.len() < usize::MAX,
        call_ensures(SchedulerFuture::<D>::driver_polled, (future, ready), result),
    ensures
        ({
            let at = old(future)@.phase->index as int;
            let swept = sweep(old(future)@.drivers, at, seq![ready]);
            &&& final(future)@.drivers == swept.left
            &&& final(future)@.phase is Sweeping
            &&& final(future)@.phase->index == swept.at
            &&& final(future)@.phase->completed == (old(future)@.phase->completed || ready)
            &&& final(future)@.phase->admitted == old(future)@.phase->admitted
            &&& result is Some <==> ready
            &&& ready ==> result == Some(old(future)@.drivers[at])
            &&& ready ==> final(future)@.drivers.len() == old(future)@.drivers.len() - 1
            &&& ready ==> final(future)@.phase->index == at
            &&& !ready ==> final(future)@.drivers == old(future)@.drivers
            &&& !ready ==> final(future)@.phase->index == at + 1
        }),
{
    let at = old(future)@.phase->index as int;
    let drivers = old(future)@.drivers;
    reveal_with_fuel(sweep, 2);
    assert(seq![ready].skip(1).len() == 0);
    if ready {
        assert(sweep(drivers, at, seq![ready]).left == retired(drivers, at));
    }
}

/// A turn that got anything done, a driver that finished or a call that was handed out, is
/// followed by another at once, and the root future is polled first.
pub proof fn law_turn_that_got_on_is_followed_at_once<D>(
    future: &mut SchedulerFuture<D>,
    result: bool,
)
    requires
        old(future)@.phase is Sweeping,
        call_ensures(SchedulerFuture::<D>::sweep_done, (future,), result),
    ensures
        result <==> old(future)@.phase->completed || old(future)@.phase->admitted,
        final(future)@.phase == Phase::Root,
        final(future)@.drivers == old(future)@.drivers,
{
}

} // verus!
