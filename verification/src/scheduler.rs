//! The order in which the calls of one dispatch session reach their plugins.

use crate::path::{ExecutionPathId, PluginKey};
use crate::queue::{
    CallerLines, Created, DestinationQueue, callers_wf, dequeued, enqueued, front,
    law_call_joins_its_line, law_call_leaves_the_head_of_its_line, line, oldest_destination,
};
use std::collections::{BTreeMap, HashMap};
use vstd::prelude::*;

verus! {

/// A call on its way to a plugin, and the number under which it was scheduled.
pub struct ScheduledCall<T, R> {
    pub sequence: u64,
    pub target: T,
    pub request: R,
}

impl<T, R> Created for ScheduledCall<T, R> {
    open spec fn created(&self) -> u64 {
        self.sequence
    }

    fn sequence(&self) -> (result: u64) {
        self.sequence
    }
}

/// The calls that wait at one depth, by destination.
pub type Level<C> = Map<PluginKey, CallerLines<C>>;

/// The calls that wait, by depth.
pub type Ready<C> = Map<usize, Level<C>>;

/// What waits at `depth`.
pub open spec fn level_at<C>(ready: Ready<C>, depth: usize) -> Level<C> {
    if ready.contains_key(depth) {
        ready[depth]
    } else {
        Map::empty()
    }
}

/// What waits at `depth` for `destination`.
pub open spec fn lines_at<C>(ready: Ready<C>, depth: usize, destination: PluginKey) -> CallerLines<
    C,
> {
    if level_at(ready, depth).contains_key(destination) {
        level_at(ready, depth)[destination]
    } else {
        Seq::empty()
    }
}

/// What `caller` has waiting for `destination` on `path`, first to last.
pub open spec fn waiting<C>(
    ready: Ready<C>,
    destination: PluginKey,
    caller: PluginKey,
    path: ExecutionPathId,
) -> Seq<C> {
    line(lines_at(ready, path.depth, destination), caller, path)
}

/// What waits once `call` has joined.
pub open spec fn call_added<C>(
    ready: Ready<C>,
    destination: PluginKey,
    caller: PluginKey,
    path: ExecutionPathId,
    call: C,
) -> Ready<C> {
    ready.insert(
        path.depth,
        level_at(ready, path.depth).insert(
            destination,
            enqueued(lines_at(ready, path.depth, destination), caller, path, call),
        ),
    )
}

/// What waits once the front call for `destination` at `depth` is taken. A destination and a
/// depth without calls are forgotten.
pub open spec fn call_taken<C>(ready: Ready<C>, depth: usize, destination: PluginKey) -> Ready<C> {
    let lines = dequeued(ready[depth][destination]);
    let level = if lines.len() == 0 {
        ready[depth].remove(destination)
    } else {
        ready[depth].insert(destination, lines)
    };
    if level.dom() =~= Set::empty() {
        ready.remove(depth)
    } else {
        ready.insert(depth, level)
    }
}

/// `destination` at `depth` is served next: no call waits deeper, and no other destination
/// at that depth has a front call that was scheduled earlier.
pub open spec fn is_next<C: Created>(ready: Ready<C>, depth: usize, destination: PluginKey) -> bool {
    &&& ready.contains_key(depth)
    &&& ready[depth].contains_key(destination)
    &&& forall|other: usize| #[trigger] ready.contains_key(other) ==> other <= depth
    &&& forall|other: PluginKey| #[trigger]
        ready[depth].contains_key(other) ==> front(ready[depth][destination]).created() <= front(
            ready[depth][other],
        ).created()
}

/// Nothing empty is kept, and a call waits at the depth of its path.
pub open spec fn ready_wf<C>(ready: Ready<C>) -> bool {
    &&& forall|depth: usize| #[trigger] ready.contains_key(depth) ==> !(ready[depth].dom()
        =~= Set::empty())
    &&& forall|depth: usize, destination: PluginKey|
        ready.contains_key(depth) && #[trigger] ready[depth].contains_key(destination)
            ==> callers_wf(ready[depth][destination]) && ready[depth][destination].len() > 0
            && lines_in_depth(ready[depth][destination], depth)
}

/// Every path among `lines` lies at `depth`.
pub open spec fn lines_in_depth<C>(lines: CallerLines<C>, depth: usize) -> bool {
    forall|caller: PluginKey, path: ExecutionPathId|
        (#[trigger] line(lines, caller, path)).len() > 0 ==> path.depth == depth
}

/// The number of a waiting call.
pub open spec fn number_of<C: Created>(
    ready: Ready<C>,
    destination: PluginKey,
    caller: PluginKey,
    path: ExecutionPathId,
    i: int,
) -> u64 {
    waiting(ready, destination, caller, path)[i].created()
}

/// A call waits there.
pub open spec fn waits<C>(
    ready: Ready<C>,
    destination: PluginKey,
    caller: PluginKey,
    path: ExecutionPathId,
    i: int,
) -> bool {
    0 <= i < waiting(ready, destination, caller, path).len()
}

/// Waiting calls have numbers below `next`, no two have the same, and on a path they rise.
pub open spec fn numbered<C: Created>(ready: Ready<C>, next: u64) -> bool {
    &&& forall|d: PluginKey, c: PluginKey, p: ExecutionPathId, i: int| #[trigger]
        waits(ready, d, c, p, i) ==> number_of(ready, d, c, p, i) < next
    &&& forall|
        d: PluginKey,
        c: PluginKey,
        p: ExecutionPathId,
        i: int,
        e: PluginKey,
        b: PluginKey,
        q: ExecutionPathId,
        j: int,
    |
        #[trigger] waits(ready, d, c, p, i) && #[trigger] waits(ready, e, b, q, j) && number_of(
            ready,
            d,
            c,
            p,
            i,
        ) == number_of(ready, e, b, q, j) ==> d == e && c == b && p == q && i == j
    &&& forall|d: PluginKey, c: PluginKey, p: ExecutionPathId, i: int, j: int|
        #[trigger] waits(ready, d, c, p, i) && #[trigger] waits(ready, d, c, p, j) && i < j
            ==> number_of(ready, d, c, p, i) < number_of(ready, d, c, p, j)
}

/// A call that joins extends its own line and no other.
pub proof fn law_scheduled_call_joins_its_line<C: Created>(
    ready: Ready<C>,
    destination: PluginKey,
    caller: PluginKey,
    path: ExecutionPathId,
    call: C,
)
    requires
        ready_wf(ready),
    ensures
        ready_wf(call_added(ready, destination, caller, path, call)),
        waiting(call_added(ready, destination, caller, path, call), destination, caller, path)
            == waiting(ready, destination, caller, path).push(call),
        forall|d: PluginKey, c: PluginKey, p: ExecutionPathId|
            (d, c, p) != (destination, caller, path) ==> #[trigger] waiting(
                call_added(ready, destination, caller, path, call),
                d,
                c,
                p,
            ) == waiting(ready, d, c, p),
{
    let after = call_added(ready, destination, caller, path, call);
    let lines = lines_at(ready, path.depth, destination);
    assert(callers_wf(lines) && lines_in_depth(lines, path.depth)) by {
        if !level_at(ready, path.depth).contains_key(destination) {
            assert forall|c: PluginKey, p: ExecutionPathId|
                (#[trigger] line(lines, c, p)).len() > 0 implies p.depth == path.depth by {
                assert(!crate::ring::has_key(lines, c));
                assert(!crate::ring::has_key(crate::queue::caller_paths(lines, c), p));
            }
        }
    }
    law_call_joins_its_line(lines, caller, path, call);
    let longer = enqueued(lines, caller, path, call);
    assert(longer.len() > 0) by {
        crate::queue::law_joining_keeps_turns(lines, caller, path, call);
        if lines.len() == 0 {
            assert(!crate::ring::has_key(lines, caller));
        }
    }
    assert forall|c: PluginKey, p: ExecutionPathId|
        (#[trigger] line(longer, c, p)).len() > 0 implies p.depth == path.depth by {
        if (c, p) != (caller, path) {
            assert(line(longer, c, p) == line(lines, c, p));
        }
    }
    assert(lines_in_depth(longer, path.depth));
    assert forall|depth: usize| #[trigger] after.contains_key(depth) implies !(after[depth].dom()
        =~= Set::empty()) by {
        if depth == path.depth {
            assert(after[depth].dom().contains(destination));
        } else {
            assert(ready.contains_key(depth));
        }
    }
    assert forall|depth: usize, d: PluginKey|
        after.contains_key(depth) && #[trigger] after[depth].contains_key(d) implies callers_wf(
        after[depth][d],
    ) && after[depth][d].len() > 0 && lines_in_depth(after[depth][d], depth) by {
        if depth != path.depth || d != destination {
            assert(ready.contains_key(depth) && ready[depth].contains_key(d));
        }
    }
    assert forall|d: PluginKey, c: PluginKey, p: ExecutionPathId|
        (d, c, p) != (destination, caller, path) implies #[trigger] waiting(after, d, c, p)
        == waiting(ready, d, c, p) by {
        if p.depth == path.depth && d == destination {
            assert(line(longer, c, p) == line(lines, c, p));
        }
    }
}

/// Taking a call takes the first one of its line and leaves every other line alone.
pub proof fn law_taken_call_heads_its_line<C: Created>(
    ready: Ready<C>,
    depth: usize,
    destination: PluginKey,
)
    requires
        ready_wf(ready),
        ready.contains_key(depth),
        ready[depth].contains_key(destination),
    ensures
        ready_wf(call_taken(ready, depth, destination)),
        ({
            let lines = ready[depth][destination];
            let caller = lines[0].0;
            let path = lines[0].1[0].0;
            &&& path.depth == depth
            &&& waiting(ready, destination, caller, path).len() > 0
            &&& waiting(ready, destination, caller, path)[0] == front(lines)
            &&& waiting(call_taken(ready, depth, destination), destination, caller, path)
                == waiting(ready, destination, caller, path).skip(1)
        }),
        forall|d: PluginKey, c: PluginKey, p: ExecutionPathId|
            (d, c, p) != (
                destination,
                ready[depth][destination][0].0,
                ready[depth][destination][0].1[0].0,
            ) ==> #[trigger] waiting(call_taken(ready, depth, destination), d, c, p) == waiting(
                ready,
                d,
                c,
                p,
            ),
{
    let lines = ready[depth][destination];
    let caller = lines[0].0;
    let path = lines[0].1[0].0;
    let rest = dequeued(lines);
    let after = call_taken(ready, depth, destination);
    law_call_leaves_the_head_of_its_line(lines);
    assert(line(lines, caller, path).len() > 0);
    assert forall|c: PluginKey, p: ExecutionPathId|
        (#[trigger] line(rest, c, p)).len() > 0 implies p.depth == depth by {
        if (c, p) != (caller, path) {
            assert(line(rest, c, p) == line(lines, c, p));
        }
    }
    assert(lines_in_depth(rest, depth));
    let level = if rest.len() == 0 {
        ready[depth].remove(destination)
    } else {
        ready[depth].insert(destination, rest)
    };
    assert forall|d: PluginKey| lines_at(after, depth, d) == (if d == destination {
        rest
    } else {
        lines_at(ready, depth, d)
    }) by {
        if level.dom() =~= Set::empty() {
            assert(!level.dom().contains(d));
            assert(lines_at(after, depth, d) =~= Seq::empty());
            if d != destination {
                assert(!ready[depth].contains_key(d));
            } else {
                assert(rest =~= Seq::empty());
            }
        } else {
            assert(level_at(after, depth) == level);
            if d == destination && rest.len() == 0 {
                assert(rest =~= Seq::empty());
            }
        }
    }
    assert forall|other: usize| other != depth implies level_at(after, other) == level_at(
        ready,
        other,
    ) by {}
    assert forall|d: usize| #[trigger] after.contains_key(d) implies !(after[d].dom()
        =~= Set::empty()) by {
        if d != depth {
            assert(ready.contains_key(d));
        }
    }
    assert forall|e: usize, d: PluginKey|
        after.contains_key(e) && #[trigger] after[e].contains_key(d) implies callers_wf(
        after[e][d],
    ) && after[e][d].len() > 0 && lines_in_depth(after[e][d], e) by {
        if e != depth {
            assert(ready.contains_key(e) && ready[e].contains_key(d));
        } else if d != destination {
            assert(ready[depth].contains_key(d));
        }
    }
    assert forall|d: PluginKey, c: PluginKey, p: ExecutionPathId|
        (d, c, p) != (destination, caller, path) implies #[trigger] waiting(after, d, c, p)
        == waiting(ready, d, c, p) by {
        if p.depth == depth {
            assert(lines_at(after, depth, d) == (if d == destination {
                rest
            } else {
                lines_at(ready, depth, d)
            }));
            if d == destination {
                assert(line(rest, c, p) == line(lines, c, p));
            }
        } else {
            assert(level_at(after, p.depth) == level_at(ready, p.depth));
        }
    }
}

/// Numbers stay below the next one, unique and rising, once a call has joined with that number.
pub proof fn lemma_numbered_after_adding<C: Created>(
    ready: Ready<C>,
    next: u64,
    destination: PluginKey,
    caller: PluginKey,
    path: ExecutionPathId,
    call: C,
)
    requires
        ready_wf(ready),
        numbered(ready, next),
        next < u64::MAX,
        call.created() == next,
    ensures
        numbered(call_added(ready, destination, caller, path, call), (next + 1) as u64),
{
    let after = call_added(ready, destination, caller, path, call);
    law_scheduled_call_joins_its_line(ready, destination, caller, path, call);
    assert forall|d: PluginKey, c: PluginKey, p: ExecutionPathId, i: int| #[trigger]
        waits(after, d, c, p, i) implies (waits(ready, d, c, p, i) && number_of(after, d, c, p, i)
        == number_of(ready, d, c, p, i)) || ((d, c, p) == (destination, caller, path) && i
        == waiting(ready, d, c, p).len() && number_of(after, d, c, p, i) == next) by {
        if (d, c, p) != (destination, caller, path) {
            assert(waiting(after, d, c, p) == waiting(ready, d, c, p));
        }
    }
}

/// Taking a call keeps numbers unique and rising.
pub proof fn lemma_numbered_after_taking<C: Created>(
    ready: Ready<C>,
    next: u64,
    depth: usize,
    destination: PluginKey,
)
    requires
        ready_wf(ready),
        numbered(ready, next),
        ready.contains_key(depth),
        ready[depth].contains_key(destination),
    ensures
        numbered(call_taken(ready, depth, destination), next),
{
    let after = call_taken(ready, depth, destination);
    let lines = ready[depth][destination];
    let caller = lines[0].0;
    let path = lines[0].1[0].0;
    law_taken_call_heads_its_line(ready, depth, destination);
    assert forall|d: PluginKey, c: PluginKey, p: ExecutionPathId, i: int| #[trigger]
        waits(after, d, c, p, i) implies {
        let shift: int = if (d, c, p) == (destination, caller, path) {
            1
        } else {
            0
        };
        waits(ready, d, c, p, i + shift) && number_of(after, d, c, p, i) == number_of(
            ready,
            d,
            c,
            p,
            i + shift,
        )
    } by {
        if (d, c, p) != (destination, caller, path) {
            assert(waiting(after, d, c, p) == waiting(ready, d, c, p));
        }
    }
}

/// Which call comes next leaves no choice: one destination at one depth is next.
pub proof fn law_next_call_is_unique<C: Created>(
    ready: Ready<C>,
    next: u64,
    first: (usize, PluginKey),
    second: (usize, PluginKey),
)
    requires
        ready_wf(ready),
        numbered(ready, next),
        is_next(ready, first.0, first.1),
        is_next(ready, second.0, second.1),
    ensures
        first == second,
{
    let depth = first.0;
    let a = ready[depth][first.1];
    let b = ready[depth][second.1];
    law_taken_call_heads_its_line(ready, depth, first.1);
    law_taken_call_heads_its_line(ready, depth, second.1);
    assert(waits(ready, first.1, a[0].0, a[0].1[0].0, 0));
    assert(waits(ready, second.1, b[0].0, b[0].1[0].0, 0));
}

/// While any call waits, the scheduler has a call to hand out.
pub proof fn law_waiting_call_is_held<C>(
    ready: Ready<C>,
    destination: PluginKey,
    caller: PluginKey,
    path: ExecutionPathId,
    i: int,
)
    requires
        waits(ready, destination, caller, path, i),
    ensures
        ready.contains_key(path.depth),
        ready[path.depth].contains_key(destination),
        !(ready.dom() =~= Set::empty()),
{
    if !level_at(ready, path.depth).contains_key(destination) {
        let lines: CallerLines<C> = Seq::empty();
        assert(!crate::ring::has_key(lines, caller));
        assert(!crate::ring::has_key(crate::queue::caller_paths(lines, caller), path));
    }
}

/// The queues of one depth, as they are held.
pub type HeldLevel<T, R> = HashMap<PluginKey, DestinationQueue<ScheduledCall<T, R>>>;

/// The queues of every depth, as they are held.
pub type HeldReady<T, R> = BTreeMap<usize, HeldLevel<T, R>>;

/// What one depth holds.
pub open spec fn held_level<T, R>(level: HeldLevel<T, R>) -> Level<ScheduledCall<T, R>> {
    level@.map_values(|queue: DestinationQueue<ScheduledCall<T, R>>| queue@)
}

/// What every depth holds.
pub open spec fn held_ready<T, R>(ready: HeldReady<T, R>) -> Ready<ScheduledCall<T, R>> {
    ready@.map_values(|level: HeldLevel<T, R>| held_level(level))
}

/// Every queue of one depth is well formed.
pub open spec fn level_queues_wf<T, R>(level: HeldLevel<T, R>) -> bool {
    forall|key: PluginKey| #[trigger] level@.contains_key(key) ==> level@[key].wf()
}

/// Every queue of every depth is well formed.
pub open spec fn held_queues_wf<T, R>(ready: HeldReady<T, R>) -> bool {
    forall|depth: usize| #[trigger] ready@.contains_key(depth) ==> level_queues_wf(ready@[depth])
}

/// What a scheduler holds.
#[verifier::ext_equal]
pub struct SchedulerView<T, R, D> {
    pub closed: bool,
    pub next_path: u64,
    pub next_sequence: u64,
    pub depths: Map<PluginKey, usize>,
    pub ready: Ready<ScheduledCall<T, R>>,
    pub drivers: Seq<D>,
}

/// The calls and drivers of one dispatch session. `T` is where a call goes, `R` what it asks
/// and `D` what drives a plugin. A session stops handing out calls once it is closed.
pub struct AsyncScheduler<T, R, D> {
    closed: bool,
    next_path: u64,
    next_sequence: u64,
    depths: HashMap<PluginKey, usize>,
    ready: HeldReady<T, R>,
    drivers: Vec<D>,
}

impl<T, R, D> View for AsyncScheduler<T, R, D> {
    type V = SchedulerView<T, R, D>;

    closed spec fn view(&self) -> SchedulerView<T, R, D> {
        SchedulerView {
            closed: self.closed,
            next_path: self.next_path,
            next_sequence: self.next_sequence,
            depths: self.depths@,
            ready: held_ready(self.ready),
            drivers: self.drivers@,
        }
    }
}

/// The depth at which calls made by `caller` run: one below the caller's own.
pub open spec fn calls_of_run_at(depths: Map<PluginKey, usize>, caller: PluginKey) -> int {
    if depths.contains_key(caller) {
        depths[caller] + 1
    } else {
        1
    }
}

/// The deepest level in use, if any.
fn deepest<V>(levels: &BTreeMap<usize, V>) -> (result: Option<usize>)
    ensures
        match result {
            Some(depth) => levels@.contains_key(depth) && forall|other: usize| #[trigger]
                levels@.contains_key(other) ==> other <= depth,
            None => levels@.dom() =~= Set::empty(),
        },
{
    broadcast use vstd::std_specs::btree::group_btree_axioms;

    let mut found: Option<usize> = None;
    for key in it: levels.keys()
        invariant
            match found {
                Some(depth) => levels@.contains_key(depth) && forall|i: int|
                    0 <= i < it.index() ==> *(#[trigger] it.seq()[i]) <= depth,
                None => it.index() == 0,
            },
    {
        assert(levels@.contains_key(*key));
        let deeper = match found {
            Some(depth) => depth < *key,
            None => true,
        };
        if deeper {
            found = Some(*key);
        }
    }
    found
}

/// Calls are held as a scheduler holds them, with numbers below `next`.
pub open spec fn held_in_order<T, R>(ready: HeldReady<T, R>, next: u64) -> bool {
    &&& held_queues_wf(ready)
    &&& ready_wf(held_ready(ready))
    &&& numbered(held_ready(ready), next)
}

/// `call` was next in `before`, and `after` is what waits when it is gone.
pub open spec fn next_out<C: Created>(before: Ready<C>, after: Ready<C>, call: C) -> bool {
    exists|depth: usize, destination: PluginKey|
        {
            &&& #[trigger] is_next(before, depth, destination)
            &&& call == front(before[depth][destination])
            &&& after == call_taken(before, depth, destination)
        }
}

/// Takes the next call out of what is held.
pub(crate) fn take_next<T, R>(ready: &mut HeldReady<T, R>) -> (result: Option<ScheduledCall<T, R>>)
    requires
        held_queues_wf(*old(ready)),
        ready_wf(held_ready(*old(ready))),
    ensures
        held_queues_wf(*final(ready)),
        ready_wf(held_ready(*final(ready))),
        match result {
            Some(call) => next_out(held_ready(*old(ready)), held_ready(*final(ready)), call),
            None => held_ready(*old(ready)).dom() =~= Set::empty() && held_ready(*final(ready))
                == held_ready(*old(ready)),
        },
{
    broadcast use vstd::std_specs::hash::group_hash_axioms;
    broadcast use vstd::std_specs::btree::group_btree_axioms;

    let ghost before = held_ready(*ready);
    let depth = match deepest(&*ready) {
        Some(depth) => depth,
        None => return None,
    };
    assert(before.contains_key(depth));
    let mut level = match ready.remove(&depth) {
        Some(level) => level,
        None => return None,
    };
    let ghost held = level;
    assert(held_level(held) == before[depth]);
    let destination = match oldest_destination(&level) {
        Some(destination) => destination,
        None => {
            assert(held_level(held).dom() =~= Set::empty());
            return None;
        },
    };
    let queue = match level.remove(&destination) {
        Some(queue) => queue,
        None => return None,
    };
    assert(before[depth].contains_key(destination));
    assert(queue@ == before[depth][destination]);
    let (queue, call) = queue.dequeue();
    let ghost rest = queue@;
    if !queue.is_empty() {
        level.insert(destination, queue);
    }
    let ghost left = held_level(level);
    proof {
        assert(left =~= if rest.len() == 0 {
            before[depth].remove(destination)
        } else {
            before[depth].insert(destination, rest)
        });
    }
    if !level.is_empty() {
        assert(!(left.dom() =~= Set::empty())) by {
            assert(!(level@.dom() =~= Set::empty()));
            assert(left.dom() =~= level@.dom());
        }
        ready.insert(depth, level);
    } else {
        assert(left.dom() =~= Set::empty());
    }
    proof {
        assert(held_ready(*ready) =~= call_taken(before, depth, destination));
        law_taken_call_heads_its_line(before, depth, destination);
        assert forall|other: PluginKey| #[trigger] before[depth].contains_key(other) implies front(
            before[depth][destination],
        ).created() <= front(before[depth][other]).created() by {
            assert(held@.contains_key(other));
        }
        assert(is_next(before, depth, destination));
    }
    call
}

impl<T, R, D> AsyncScheduler<T, R, D> {
    /// Queues are well formed, calls carry numbers below the next one, and a closed scheduler
    /// holds no call.
    pub closed spec fn wf(&self) -> bool {
        &&& held_queues_wf(self.ready)
        &&& ready_wf(self@.ready)
        &&& numbered(self@.ready, self.next_sequence)
        &&& self.closed ==> self@.ready.dom() =~= Set::empty()
    }

    /// An open scheduler without calls.
    pub fn new(depths: HashMap<PluginKey, usize>) -> (result: Self)
        ensures
            result.wf(),
            result@ == (SchedulerView::<T, R, D> {
                closed: false,
                next_path: 1,
                next_sequence: 0,
                depths: depths@,
                ready: Map::empty(),
                drivers: Seq::empty(),
            }),
    {
        let scheduler = AsyncScheduler {
            closed: false,
            next_path: 1,
            next_sequence: 0,
            depths,
            ready: BTreeMap::new(),
            drivers: Vec::new(),
        };
        proof {
            let ready = scheduler@.ready;
            assert(ready =~= Map::empty());
            assert forall|d: PluginKey, c: PluginKey, p: ExecutionPathId, i: int| !#[trigger]
                waits(ready, d, c, p, i) by {
                if waits(ready, d, c, p, i) {
                    law_waiting_call_is_held(ready, d, c, p, i);
                }
            }
        }
        scheduler
    }

    /// The key that stands for the host, which no plugin has.
    pub fn origin(&self) -> (result: PluginKey)
        ensures
            result == 0,
    {
        0
    }

    /// Whether the scheduler is closed.
    pub fn is_closed(&self) -> (result: bool)
        ensures
            result == self@.closed,
    {
        self.closed
    }

    /// The number that the next path gets.
    pub fn next_path(&self) -> (result: u64)
        ensures
            result == self@.next_path,
    {
        self.next_path
    }

    /// The number that the next call gets.
    pub fn next_sequence(&self) -> (result: u64)
        ensures
            result == self@.next_sequence,
    {
        self.next_sequence
    }

    /// How deep a plugin lies. One that is not known lies where the host's calls run.
    pub fn depth_of(&self, plugin: PluginKey) -> (result: usize)
        ensures
            result + 1 == calls_of_run_at(self@.depths, plugin),
    {
        broadcast use vstd::std_specs::hash::group_hash_axioms;

        match self.depths.get(&plugin) {
            Some(depth) => *depth,
            None => 0,
        }
    }

    fn new_path(&mut self, depth: usize) -> (result: ExecutionPathId)
        requires
            old(self).wf(),
            old(self)@.next_path < u64::MAX,
        ensures
            final(self).wf(),
            result == (ExecutionPathId { serial: old(self)@.next_path, depth }),
            final(self)@ == (SchedulerView {
                next_path: (old(self)@.next_path + 1) as u64,
                ..old(self)@
            }),
    {
        let path = ExecutionPathId { serial: self.next_path, depth };
        self.next_path = self.next_path + 1;
        path
    }

    /// A path that starts at the host.
    pub fn root_path(&mut self) -> (result: ExecutionPathId)
        requires
            old(self).wf(),
            old(self)@.next_path < u64::MAX,
        ensures
            final(self).wf(),
            result == (ExecutionPathId { serial: old(self)@.next_path, depth: 0 }),
            final(self)@ == (SchedulerView {
                next_path: (old(self)@.next_path + 1) as u64,
                ..old(self)@
            }),
    {
        self.new_path(0)
    }

    /// A path that starts at a plugin: it runs one deeper than the plugin does.
    pub fn execution_path(&mut self, caller: PluginKey) -> (result: ExecutionPathId)
        requires
            old(self).wf(),
            old(self)@.next_path < u64::MAX,
            calls_of_run_at(old(self)@.depths, caller) <= usize::MAX,
        ensures
            final(self).wf(),
            result.serial == old(self)@.next_path,
            result.depth == calls_of_run_at(old(self)@.depths, caller),
            final(self)@ == (SchedulerView {
                next_path: (old(self)@.next_path + 1) as u64,
                ..old(self)@
            }),
    {
        let depth = self.depth_of(caller);
        self.new_path(depth + 1)
    }

    /// Queues a call, numbered after every call before it. A closed scheduler hands the
    /// request back.
    pub fn schedule(
        &mut self,
        caller: PluginKey,
        path: ExecutionPathId,
        destination: PluginKey,
        target: T,
        request: R,
    ) -> (result: Result<(), R>)
        requires
            old(self).wf(),
            old(self)@.closed || old(self)@.next_sequence < u64::MAX,
        ensures
            final(self).wf(),
            match result {
                Ok(_) => !old(self)@.closed && final(self)@ == (SchedulerView {
                    next_sequence: (old(self)@.next_sequence + 1) as u64,
                    ready: call_added(
                        old(self)@.ready,
                        destination,
                        caller,
                        path,
                        ScheduledCall { sequence: old(self)@.next_sequence, target, request },
                    ),
                    ..old(self)@
                }),
                Err(refused) => old(self)@.closed && refused == request && final(self)@
                    == old(self)@,
            },
    {
        broadcast use vstd::std_specs::hash::group_hash_axioms;
        broadcast use vstd::std_specs::btree::group_btree_axioms;

        if self.closed {
            return Err(request);
        }
        let ghost before = self@;
        let call = ScheduledCall { sequence: self.next_sequence, target, request };
        let ghost added = call;
        self.next_sequence = self.next_sequence + 1;
        let mut level: HeldLevel<T, R> = match self.ready.remove(&path.depth) {
            Some(level) => level,
            None => HashMap::new(),
        };
        let ghost held = level;
        assert(held_level(held) =~= level_at(before.ready, path.depth));
        let queue = match level.remove(&destination) {
            Some(queue) => queue,
            None => DestinationQueue::default(),
        };
        assert(queue@ == lines_at(before.ready, path.depth, destination));
        let queue = queue.enqueue(caller, path, call);
        level.insert(destination, queue);
        self.ready.insert(path.depth, level);
        proof {
            assert(held_level(level) =~= held_level(held).insert(destination, queue@));
            assert(self@.ready =~= call_added(before.ready, destination, caller, path, added));
            law_scheduled_call_joins_its_line(before.ready, destination, caller, path, added);
            lemma_numbered_after_adding(
                before.ready,
                before.next_sequence,
                destination,
                caller,
                path,
                added,
            );
        }
        Ok(())
    }

    /// Takes up a driver. A closed scheduler hands it back.
    pub fn attach_driver(&mut self, driver: D) -> (result: Result<(), D>)
        requires
            old(self).wf(),
        ensures
            final(self).wf(),
            match result {
                Ok(_) => !old(self)@.closed && final(self)@ == (SchedulerView {
                    drivers: old(self)@.drivers.push(driver),
                    ..old(self)@
                }),
                Err(refused) => old(self)@.closed && refused == driver && final(self)@
                    == old(self)@,
            },
    {
        if self.closed {
            return Err(driver);
        }
        self.drivers.push(driver);
        Ok(())
    }

    /// Takes the next call: of those at the greatest depth, the front call of the
    /// destination whose front call was scheduled first.
    pub fn take_call(&mut self) -> (result: Option<ScheduledCall<T, R>>)
        requires
            old(self).wf(),
        ensures
            final(self).wf(),
            match result {
                Some(call) => next_taken(old(self)@, final(self)@, call),
                None => old(self)@.ready.dom() =~= Set::empty() && final(self)@ == old(self)@,
            },
    {
        let ghost before = self@;
        let call = take_next(&mut self.ready);
        proof {
            if call is Some {
                let (depth, destination) = choose|depth: usize, destination: PluginKey|
                    {
                        &&& #[trigger] is_next(before.ready, depth, destination)
                        &&& call->0 == front(before.ready[depth][destination])
                        &&& self@.ready == call_taken(before.ready, depth, destination)
                    };
                law_taken_call_heads_its_line(before.ready, depth, destination);
                lemma_numbered_after_taking(before.ready, before.next_sequence, depth, destination);
                assert(is_next(before.ready, depth, destination));
                assert(self@ =~= (SchedulerView {
                    ready: call_taken(before.ready, depth, destination),
                    ..before
                }));
            }
        }
        call
    }

    /// Takes every driver that was taken up.
    pub fn take_drivers(&mut self) -> (result: Vec<D>)
        requires
            old(self).wf(),
        ensures
            final(self).wf(),
            result@ == old(self)@.drivers,
            final(self)@ == (SchedulerView { drivers: Seq::empty(), ..old(self)@ }),
    {
        let mut drivers: Vec<D> = Vec::new();
        core::mem::swap(&mut drivers, &mut self.drivers);
        drivers
    }

    /// Closes the scheduler and hands over every call that still waits.
    pub fn close(&mut self) -> (result: HeldReady<T, R>)
        requires
            old(self).wf(),
        ensures
            final(self).wf(),
            held_ready(result) == old(self)@.ready,
            held_in_order(result, old(self)@.next_sequence),
            final(self)@ == (SchedulerView { closed: true, ready: Map::empty(), ..old(self)@ }),
    {
        let mut ready: HeldReady<T, R> = BTreeMap::new();
        core::mem::swap(&mut ready, &mut self.ready);
        self.closed = true;
        proof {
            let left = self@.ready;
            assert(left =~= Map::empty());
            assert forall|d: PluginKey, c: PluginKey, p: ExecutionPathId, i: int| !#[trigger]
                waits(left, d, c, p, i) by {
                if waits(left, d, c, p, i) {
                    law_waiting_call_is_held(left, d, c, p, i);
                }
            }
        }
        ready
    }
}

/// `call` was next in `before`, and `after` is what remains.
pub open spec fn next_taken<T, R, D>(
    before: SchedulerView<T, R, D>,
    after: SchedulerView<T, R, D>,
    call: ScheduledCall<T, R>,
) -> bool {
    exists|depth: usize, destination: PluginKey|
        {
            &&& #[trigger] is_next(before.ready, depth, destination)
            &&& call == front(before.ready[depth][destination])
            &&& after == (SchedulerView {
                ready: call_taken(before.ready, depth, destination),
                ..before
            })
        }
}

/// Calls of a scheduler wait at the depth of their path, carry numbers that no two share and
/// that rise along a path, and a number is never handed out twice.
pub proof fn law_scheduler_keeps_order<T, R, D>(scheduler: AsyncScheduler<T, R, D>)
    requires
        scheduler.wf(),
    ensures
        ready_wf(scheduler@.ready),
        numbered(scheduler@.ready, scheduler@.next_sequence),
{
}

/// Nothing waits in a closed scheduler.
pub proof fn law_closed_scheduler_is_empty<T, R, D>(scheduler: AsyncScheduler<T, R, D>)
    requires
        scheduler.wf(),
        scheduler@.closed,
    ensures
        scheduler@.ready == Map::<usize, Level<ScheduledCall<T, R>>>::empty(),
        forall|d: PluginKey, c: PluginKey, p: ExecutionPathId, i: int| !#[trigger]
            waits(scheduler@.ready, d, c, p, i),
{
    let ready = scheduler@.ready;
    assert(ready =~= Map::empty());
    assert forall|d: PluginKey, c: PluginKey, p: ExecutionPathId, i: int| !#[trigger]
        waits(ready, d, c, p, i) by {
        if waits(ready, d, c, p, i) {
            law_waiting_call_is_held(ready, d, c, p, i);
        }
    }
}

/// `call` heads the line of `caller` on `path` to `destination`, and `after` is what is left
/// when it goes.
pub open spec fn heads_line<T, R, D>(
    before: SchedulerView<T, R, D>,
    after: SchedulerView<T, R, D>,
    call: ScheduledCall<T, R>,
    destination: PluginKey,
    caller: PluginKey,
    path: ExecutionPathId,
) -> bool {
    &&& waits(before.ready, destination, caller, path, 0)
    &&& waiting(before.ready, destination, caller, path)[0] == call
    &&& waiting(after.ready, destination, caller, path) == waiting(
        before.ready,
        destination,
        caller,
        path,
    ).skip(1)
    &&& forall|d: PluginKey, c: PluginKey, p: ExecutionPathId|
        (d, c, p) != (destination, caller, path) ==> #[trigger] waiting(after.ready, d, c, p)
            == waiting(before.ready, d, c, p)
}

/// The call that is taken heads one line, and no call anywhere waits on a deeper path.
pub proof fn law_deepest_calls_go_first<T, R, D>(
    before: SchedulerView<T, R, D>,
    after: SchedulerView<T, R, D>,
    call: ScheduledCall<T, R>,
)
    requires
        ready_wf(before.ready),
        next_taken(before, after, call),
    ensures
        exists|destination: PluginKey, caller: PluginKey, path: ExecutionPathId|
            #[trigger] heads_line(before, after, call, destination, caller, path) && forall|
                d: PluginKey,
                c: PluginKey,
                p: ExecutionPathId,
                i: int,
            | #[trigger]
                waits(before.ready, d, c, p, i) ==> p.depth <= path.depth,
{
    let (depth, destination) = choose|depth: usize, destination: PluginKey|
        {
            &&& #[trigger] is_next(before.ready, depth, destination)
            &&& call == front(before.ready[depth][destination])
            &&& after == (SchedulerView {
                ready: call_taken(before.ready, depth, destination),
                ..before
            })
        };
    law_taken_call_heads_its_line(before.ready, depth, destination);
    let lines = before.ready[depth][destination];
    let path = lines[0].1[0].0;
    assert(heads_line(before, after, call, destination, lines[0].0, path));
    assert forall|d: PluginKey, c: PluginKey, p: ExecutionPathId, i: int| #[trigger]
        waits(before.ready, d, c, p, i) implies p.depth <= path.depth by {
        law_waiting_call_is_held(before.ready, d, c, p, i);
    }
}

/// Two calls of one caller on one path to one destination are taken in the order in which
/// they were scheduled: the one taken has the lowest number on its line.
pub proof fn law_paths_keep_schedule_order<C: Created>(
    ready: Ready<C>,
    next: u64,
    destination: PluginKey,
    caller: PluginKey,
    path: ExecutionPathId,
    i: int,
)
    requires
        numbered(ready, next),
        waits(ready, destination, caller, path, i),
    ensures
        number_of(ready, destination, caller, path, 0) <= number_of(
            ready,
            destination,
            caller,
            path,
            i,
        ),
{
    assert(waits(ready, destination, caller, path, 0));
}

/// What happens to the calls that wait.
pub enum QueueEvent<C> {
    /// A call joined.
    Added { destination: PluginKey, caller: PluginKey, path: ExecutionPathId, call: C },
    /// The front call for `destination` at `depth` was taken.
    Taken { depth: usize, destination: PluginKey },
}

/// What waits after `events`.
pub open spec fn after_events<C>(start: Ready<C>, events: Seq<QueueEvent<C>>) -> Ready<C>
    decreases events.len(),
{
    if events.len() == 0 {
        start
    } else {
        let before = after_events(start, events.drop_last());
        match events.last() {
            QueueEvent::Added { destination, caller, path, call } => call_added(
                before,
                destination,
                caller,
                path,
                call,
            ),
            QueueEvent::Taken { depth, destination } => call_taken(before, depth, destination),
        }
    }
}

/// Calls were taken only where one waited.
pub open spec fn taken_from_waiting<C>(start: Ready<C>, events: Seq<QueueEvent<C>>) -> bool
    decreases events.len(),
{
    events.len() == 0 || (taken_from_waiting(start, events.drop_last()) && match events.last() {
        QueueEvent::Added { .. } => true,
        QueueEvent::Taken { depth, destination } => {
            let before = after_events(start, events.drop_last());
            before.contains_key(depth) && before[depth].contains_key(destination)
        },
    })
}

/// The calls that joined one line, in order.
pub open spec fn added_to<C>(
    events: Seq<QueueEvent<C>>,
    destination: PluginKey,
    caller: PluginKey,
    path: ExecutionPathId,
) -> Seq<C>
    decreases events.len(),
{
    if events.len() == 0 {
        Seq::empty()
    } else {
        let earlier = added_to(events.drop_last(), destination, caller, path);
        match events.last() {
            QueueEvent::Added { destination: d, caller: c, path: p, call } => if (d, c, p) == (
                destination,
                caller,
                path,
            ) {
                earlier.push(call)
            } else {
                earlier
            },
            QueueEvent::Taken { .. } => earlier,
        }
    }
}

/// The calls that were taken from one line, in order.
pub open spec fn taken_from<C>(
    start: Ready<C>,
    events: Seq<QueueEvent<C>>,
    destination: PluginKey,
    caller: PluginKey,
    path: ExecutionPathId,
) -> Seq<C>
    decreases events.len(),
{
    if events.len() == 0 {
        Seq::empty()
    } else {
        let earlier = taken_from(start, events.drop_last(), destination, caller, path);
        match events.last() {
            QueueEvent::Added { .. } => earlier,
            QueueEvent::Taken { depth, destination: d } => {
                let lines = after_events(start, events.drop_last())[depth][d];
                if (d, lines[0].0, lines[0].1[0].0) == (destination, caller, path) {
                    earlier.push(front(lines))
                } else {
                    earlier
                }
            },
        }
    }
}

/// The calls of one caller on one path to one destination leave in the order in which they came,
/// and none is lost or doubled: those taken and those that wait are those that came.
pub proof fn law_paths_are_first_come_first_served<C: Created>(
    events: Seq<QueueEvent<C>>,
    destination: PluginKey,
    caller: PluginKey,
    path: ExecutionPathId,
)
    requires
        taken_from_waiting(Map::empty(), events),
    ensures
        ready_wf(after_events(Map::empty(), events)),
        taken_from(Map::empty(), events, destination, caller, path) + waiting(
            after_events(Map::empty(), events),
            destination,
            caller,
            path,
        ) == added_to(events, destination, caller, path),
    decreases events.len(),
{
    let after = after_events(Map::empty(), events);
    if events.len() == 0 {
        if waits(after, destination, caller, path, 0) {
            law_waiting_call_is_held(after, destination, caller, path, 0);
        }
        assert(waiting(after, destination, caller, path) =~= Seq::empty());
    } else {
        let earlier = events.drop_last();
        let before = after_events(Map::empty(), earlier);
        law_paths_are_first_come_first_served(earlier, destination, caller, path);
        let gone = taken_from(Map::empty(), earlier, destination, caller, path);
        let left = waiting(before, destination, caller, path);
        match events.last() {
            QueueEvent::Added { destination: d, caller: c, path: p, call } => {
                law_scheduled_call_joins_its_line(before, d, c, p, call);
                if (d, c, p) == (destination, caller, path) {
                    assert(gone + left.push(call) =~= (gone + left).push(call));
                }
            },
            QueueEvent::Taken { depth, destination: d } => {
                law_taken_call_heads_its_line(before, depth, d);
                let lines = before[depth][d];
                if (d, lines[0].0, lines[0].1[0].0) == (destination, caller, path) {
                    assert(gone.push(left[0]) + left.skip(1) =~= gone + left);
                }
            },
        }
    }
}

/// Where a plugin finds the scheduler of the session that it is called in, if there is one.
pub struct SchedulerSlot<S> {
    scheduler: Option<S>,
}

/// No session is active.
#[derive(Debug)]
pub struct SchedulerUnavailable;

impl SchedulerUnavailable {
    /// The error in words.
    pub fn message(&self) -> (result: String)
        ensures
            result@ == "plugin call has no active async dispatch scheduler"@,
    {
        "plugin call has no active async dispatch scheduler".to_string()
    }
}

/// What a slot held before a session was attached to it.
pub struct SchedulerSlotGuard<S> {
    previous: Option<S>,
}

impl<S> View for SchedulerSlot<S> {
    type V = Option<S>;

    closed spec fn view(&self) -> Option<S> {
        self.scheduler
    }
}

impl<S> View for SchedulerSlotGuard<S> {
    type V = Option<S>;

    closed spec fn view(&self) -> Option<S> {
        self.previous
    }
}

/// A slot, and a guard, once `scheduler` has been attached to a slot that held `slot`.
pub open spec fn slot_attached<S>(slot: Option<S>, scheduler: S) -> (Option<S>, Option<S>) {
    (Some(scheduler), slot)
}

/// A slot that held `slot`, and what it gives back, once a guard has been released.
pub open spec fn slot_released<S>(slot: Option<S>, guard: Option<S>) -> (Option<S>, Option<S>) {
    (guard, slot)
}

/// Releasing a guard undoes the attachment that it came from.
pub proof fn law_release_undoes_attach<S>(slot: Option<S>, scheduler: S)
    ensures
        ({
            let (attached, guard) = slot_attached(slot, scheduler);
            slot_released(attached, guard) == (slot, Some(scheduler))
        }),
{
}

impl<S> SchedulerSlot<S> {
    /// A slot without a session.
    pub fn new() -> (result: Self)
        ensures
            result@ is None,
    {
        SchedulerSlot { scheduler: None }
    }

    /// The scheduler of the active session.
    pub fn require(&self) -> (result: Result<&S, SchedulerUnavailable>)
        ensures
            match result {
                Ok(scheduler) => self@ == Some(*scheduler),
                Err(_) => self@ is None,
            },
    {
        match &self.scheduler {
            Some(scheduler) => Ok(scheduler),
            None => Err(SchedulerUnavailable),
        }
    }

    /// Makes `scheduler` the active one.
    pub fn attach(&mut self, scheduler: S) -> (result: SchedulerSlotGuard<S>)
        ensures
            (final(self)@, result@) == slot_attached(old(self)@, scheduler),
    {
        let mut slot = Some(scheduler);
        core::mem::swap(&mut slot, &mut self.scheduler);
        SchedulerSlotGuard { previous: slot }
    }

    /// Makes the scheduler active again that was active before the guard's was attached, and
    /// hands back the one that was active until now.
    pub fn release(&mut self, guard: SchedulerSlotGuard<S>) -> (result: Option<S>)
        ensures
            (final(self)@, result) == slot_released(old(self)@, guard@),
    {
        let mut slot = guard.previous;
        core::mem::swap(&mut slot, &mut self.scheduler);
        slot
    }
}

/// A call that joins changes the queue of its destination at its depth, and no other queue.
pub proof fn law_joining_touches_one_queue<C>(
    ready: Ready<C>,
    destination: PluginKey,
    caller: PluginKey,
    path: ExecutionPathId,
    call: C,
    depth: usize,
    other: PluginKey,
)
    ensures
        ({
            let after = call_added(ready, destination, caller, path, call);
            &&& lines_at(after, path.depth, destination) == enqueued(
                lines_at(ready, path.depth, destination),
                caller,
                path,
                call,
            )
            &&& (depth, other) != (path.depth, destination) ==> lines_at(after, depth, other)
                == lines_at(ready, depth, other)
        }),
{
}

/// A call that is taken is that of the caller and the path whose turn it is in its queue. The
/// queue goes on to the next turn, and no other queue changes.
pub proof fn law_taking_touches_one_queue<C: Created>(
    ready: Ready<C>,
    at: usize,
    destination: PluginKey,
    depth: usize,
    other: PluginKey,
)
    requires
        ready_wf(ready),
        ready.contains_key(at),
        ready[at].contains_key(destination),
    ensures
        ({
            let after = call_taken(ready, at, destination);
            &&& lines_at(ready, at, destination).len() > 0
            &&& lines_at(after, at, destination) == dequeued(lines_at(ready, at, destination))
            &&& (depth, other) != (at, destination) ==> lines_at(after, depth, other) == lines_at(
                ready,
                depth,
                other,
            )
        }),
{
    let after = call_taken(ready, at, destination);
    let rest = dequeued(ready[at][destination]);
    let level = if rest.len() == 0 {
        ready[at].remove(destination)
    } else {
        ready[at].insert(destination, rest)
    };
    if rest.len() == 0 {
        assert(rest =~= Seq::empty());
    }
    if level.dom() =~= Set::empty() {
        assert(!level.dom().contains(other));
        assert(!level.dom().contains(destination));
        if depth == at && other != destination {
            assert(!ready[at].contains_key(other));
        }
    }
}

/// `call` was taken for `destination` at `depth`: the front call of its queue.
pub open spec fn taken_for<T, R, D>(
    before: SchedulerView<T, R, D>,
    call: ScheduledCall<T, R>,
    depth: usize,
    destination: PluginKey,
) -> bool {
    let lines = lines_at(before.ready, depth, destination);
    &&& lines.len() > 0
    &&& line(lines, lines[0].0, lines[0].1[0].0).len() > 0
    &&& call == line(lines, lines[0].0, lines[0].1[0].0)[0]
}

/// Among the destinations of the deepest calls, the one whose turn is longest due goes first: the
/// call that is taken was scheduled no later than the front call of any other queue at its depth.
pub proof fn law_longest_due_destination_goes_first<T, R, D>(
    before: SchedulerView<T, R, D>,
    after: SchedulerView<T, R, D>,
    call: ScheduledCall<T, R>,
)
    requires
        ready_wf(before.ready),
        next_taken(before, after, call),
    ensures
        after == (SchedulerView { ready: after.ready, ..before }),
        exists|depth: usize, destination: PluginKey|
            {
                &&& #[trigger] taken_for(before, call, depth, destination)
                &&& after.ready == call_taken(before.ready, depth, destination)
                &&& forall|other: usize, d: PluginKey|
                    (#[trigger] lines_at(before.ready, other, d)).len() > 0 ==> other <= depth
                &&& forall|d: PluginKey|
                    ({
                        let lines = #[trigger] lines_at(before.ready, depth, d);
                        lines.len() > 0 ==> call.sequence <= line(
                            lines,
                            lines[0].0,
                            lines[0].1[0].0,
                        )[0].sequence
                    })
            },
{
    let (depth, destination) = choose|depth: usize, destination: PluginKey|
        {
            &&& #[trigger] is_next(before.ready, depth, destination)
            &&& call == front(before.ready[depth][destination])
            &&& after == (SchedulerView {
                ready: call_taken(before.ready, depth, destination),
                ..before
            })
        };
    law_call_leaves_the_head_of_its_line(before.ready[depth][destination]);
    assert(taken_for(before, call, depth, destination));
    assert forall|other: usize, d: PluginKey|
        (#[trigger] lines_at(before.ready, other, d)).len() > 0 implies other <= depth by {
        assert(before.ready.contains_key(other));
    }
    assert forall|d: PluginKey|
        ({
            let lines = #[trigger] lines_at(before.ready, depth, d);
            lines.len() > 0 ==> call.sequence <= line(
                lines,
                lines[0].0,
                lines[0].1[0].0,
            )[0].sequence
        }) by {
        let lines = lines_at(before.ready, depth, d);
        if lines.len() > 0 {
            assert(before.ready[depth].contains_key(d));
            law_call_leaves_the_head_of_its_line(lines);
            assert(front(lines) == line(lines, lines[0].0, lines[0].1[0].0)[0]);
            assert(front(before.ready[depth][destination]).created() <= front(
                before.ready[depth][d],
            ).created());
        }
    }
}

/// The calls of a plugin run one deeper than the plugin lies, those of a plugin that lies deeper
/// run deeper, and those of a caller outside the graph run as those of a plugin at its top.
pub proof fn law_calls_run_one_deeper(
    depths: Map<PluginKey, usize>,
    caller: PluginKey,
    other: PluginKey,
    depth: usize,
)
    ensures
        calls_of_run_at(depths.insert(caller, depth), caller) == depth + 1,
        other != caller ==> calls_of_run_at(depths.insert(caller, depth), other)
            == calls_of_run_at(depths, other),
        calls_of_run_at(depths.remove(caller), caller) == calls_of_run_at(
            depths.insert(caller, 0),
            caller,
        ),
        depths.contains_key(caller) && depths.contains_key(other) && depths[caller]
            < depths[other] ==> calls_of_run_at(depths, caller) < calls_of_run_at(depths, other),
{
}

/// The session that was attached last is the one that calls are made in, and when it is released
/// the one before it is again, however many were attached meanwhile.
pub proof fn law_attached_session_is_the_active_one<S>(slot: Option<S>, outer: S, inner: S)
    ensures
        slot_attached(slot, outer).0 == Some(outer),
        ({
            let (first, outer_guard) = slot_attached(slot, outer);
            let (second, inner_guard) = slot_attached(first, inner);
            let (again, released) = slot_released(second, inner_guard);
            &&& second == Some(inner)
            &&& again == Some(outer)
            &&& released == Some(inner)
            &&& slot_released(again, outer_guard) == (slot, Some(outer))
        }),
{
}

/// A session that is open takes up a call, and one that has ended gives it back and changes
/// nothing. A call that was scheduled later has the greater number.
pub proof fn law_closed_session_takes_up_nothing<T, R, D>(
    session: &mut AsyncScheduler<T, R, D>,
    caller: PluginKey,
    path: ExecutionPathId,
    destination: PluginKey,
    target: T,
    request: R,
    result: Result<(), R>,
)
    requires
        old(session).wf(),
        old(session)@.closed || old(session)@.next_sequence < u64::MAX,
        call_ensures(
            AsyncScheduler::<T, R, D>::schedule,
            (session, caller, path, destination, target, request),
            result,
        ),
    ensures
        result is Err <==> old(session)@.closed,
        result matches Err(refused) ==> refused == request && final(session)@ == old(session)@,
        result is Ok ==> {
            let line = waiting(final(session)@.ready, destination, caller, path);
            &&& line.len() == waiting(old(session)@.ready, destination, caller, path).len() + 1
            &&& line.last().target == target
            &&& line.last().request == request
            &&& line.last().sequence < final(session)@.next_sequence
            &&& forall|d: PluginKey, c: PluginKey, p: ExecutionPathId, i: int| #[trigger]
                waits(old(session)@.ready, d, c, p, i) ==> number_of(
                    old(session)@.ready,
                    d,
                    c,
                    p,
                    i,
                ) < line.last().sequence
        },
{
    law_scheduler_keeps_order(*old(session));
    if result is Ok {
        law_scheduled_call_joins_its_line(
            old(session)@.ready,
            destination,
            caller,
            path,
            ScheduledCall { sequence: old(session)@.next_sequence, target, request },
        );
    }
}

/// Two paths of a session that are made one after the other differ, whoever they are made for. A
/// path of a plugin runs one deeper than the plugin lies, and a path of the root at the top.
pub proof fn law_paths_differ<T, R, D>(
    session: &mut AsyncScheduler<T, R, D>,
    later: &mut AsyncScheduler<T, R, D>,
    caller: PluginKey,
    first: ExecutionPathId,
    second: ExecutionPathId,
)
    requires
        old(session)@.next_path < u64::MAX,
        call_ensures(AsyncScheduler::<T, R, D>::root_path, (session,), first),
        final(session)@ == old(later)@,
        call_ensures(AsyncScheduler::<T, R, D>::execution_path, (later, caller), second),
    ensures
        first.serial != second.serial,
        first.depth == 0,
        old(session)@.depths.contains_key(caller) ==> second.depth == old(session)@.depths[caller]
            + 1,
        !old(session)@.depths.contains_key(caller) ==> second.depth == 1,
        final(later)@.ready == old(session)@.ready,
        final(later)@.closed == old(session)@.closed,
        final(later)@.drivers == old(session)@.drivers,
{
}

/// A call that is taken is one of those that run deepest, and no call is taken only where none
/// waits.
pub proof fn law_a_waiting_call_is_taken<T, R, D>(
    session: &mut AsyncScheduler<T, R, D>,
    result: Option<ScheduledCall<T, R>>,
    destination: PluginKey,
    caller: PluginKey,
    path: ExecutionPathId,
    i: int,
)
    requires
        old(session).wf(),
        call_ensures(AsyncScheduler::<T, R, D>::take_call, (session,), result),
        waits(old(session)@.ready, destination, caller, path, i),
    ensures
        result is Some,
        exists|d: PluginKey, c: PluginKey, p: ExecutionPathId|
            #[trigger] heads_line(old(session)@, final(session)@, result->0, d, c, p) && path.depth
                <= p.depth,
{
    law_scheduler_keeps_order(*old(session));
    law_waiting_call_is_held(old(session)@.ready, destination, caller, path, i);
    law_deepest_calls_go_first(old(session)@, final(session)@, result->0);
    let (d, c, p) = choose|d: PluginKey, c: PluginKey, p: ExecutionPathId|
        #[trigger] heads_line(old(session)@, final(session)@, result->0, d, c, p) && forall|
            e: PluginKey,
            b: PluginKey,
            q: ExecutionPathId,
            j: int,
        | #[trigger]
            waits(old(session)@.ready, e, b, q, j) ==> q.depth <= p.depth;
    assert(heads_line(old(session)@, final(session)@, result->0, d, c, p));
}

/// Drivers that are attached are handed out once, in the order in which they came, and a session
/// that has ended takes on none.
pub proof fn law_attached_drivers_are_handed_out_once<T, R, D>(
    session: &mut AsyncScheduler<T, R, D>,
    later: &mut AsyncScheduler<T, R, D>,
    driver: D,
    attached: Result<(), D>,
    taken: Vec<D>,
)
    requires
        call_ensures(AsyncScheduler::<T, R, D>::attach_driver, (session, driver), attached),
        final(session)@ == old(later)@,
        call_ensures(AsyncScheduler::<T, R, D>::take_drivers, (later,), taken),
    ensures
        attached is Err <==> old(session)@.closed,
        attached matches Err(refused) ==> refused == driver && taken@ == old(session)@.drivers,
        attached is Ok ==> taken@ == old(session)@.drivers.push(driver),
        final(later)@.drivers.len() == 0,
        final(later)@.ready == old(session)@.ready,
{
}

} // verus!
