//! The calls that wait for one destination plugin.

use crate::path::{ExecutionPathId, PluginKey};
use crate::ring::{
    RingKey, RoundRobin, distinct_keys, filed, filed_at, has_key, lemma_filed, lemma_filed_mapped,
    lemma_front_taken, lookup, place_of,
};
use std::collections::{HashMap, VecDeque};
use vstd::prelude::*;

verus! {

/// What waits under each key, first to last.
pub type Lines<K, T> = Seq<(K, Seq<T>)>;

/// The calls to one destination, by caller.
pub type CallerLines<T> = Seq<(PluginKey, Lines<ExecutionPathId, T>)>;

/// Keys are distinct and no empty line is kept.
pub open spec fn lines_wf<K, T>(lines: Lines<K, T>) -> bool {
    &&& distinct_keys(lines)
    &&& forall|i: int| 0 <= i < lines.len() ==> (#[trigger] lines[i]).1.len() > 0
}

/// Keys are distinct and nothing is kept for a caller without calls.
pub open spec fn callers_wf<T>(lines: CallerLines<T>) -> bool {
    &&& distinct_keys(lines)
    &&& forall|i: int|
        0 <= i < lines.len() ==> (#[trigger] lines[i]).1.len() > 0 && lines_wf(lines[i].1)
}

/// What waits under one key, first to last.
pub open spec fn line_of<K, T>(lines: Lines<K, T>, key: K) -> Seq<T> {
    match lookup(lines, key) {
        Some(line) => line,
        None => Seq::empty(),
    }
}

/// `item` joins the end of its key's line; a new key waits behind the others.
pub open spec fn joined<K, T>(lines: Lines<K, T>, key: K, item: T) -> Lines<K, T> {
    filed(lines, key, line_of(lines, key).push(item))
}

/// What one caller has waiting.
pub open spec fn caller_paths<T>(lines: CallerLines<T>, caller: PluginKey) -> Lines<ExecutionPathId, T> {
    match lookup(lines, caller) {
        Some(paths) => paths,
        None => Seq::empty(),
    }
}

/// What one caller has waiting on one path, first to last.
pub open spec fn line<T>(lines: CallerLines<T>, caller: PluginKey, path: ExecutionPathId) -> Seq<
    T,
> {
    line_of(caller_paths(lines, caller), path)
}

/// `call` joins the end of its path's line; a new path, and a new caller, waits behind the
/// others.
pub open spec fn enqueued<T>(
    lines: CallerLines<T>,
    caller: PluginKey,
    path: ExecutionPathId,
    call: T,
) -> CallerLines<T> {
    filed(lines, caller, joined(caller_paths(lines, caller), path, call))
}

/// The call whose turn it is.
pub open spec fn front<T>(lines: CallerLines<T>) -> T
    recommends
        callers_wf(lines),
        lines.len() > 0,
{
    lines[0].1[0].1[0]
}

/// The lines once the front line has given up its first item: that line goes to the back,
/// if anything is left in it.
pub open spec fn served<K, T>(lines: Lines<K, T>) -> Lines<K, T> {
    let rest = lines[0].1.skip(1);
    if rest.len() == 0 {
        lines.skip(1)
    } else {
        lines.skip(1).push((lines[0].0, rest))
    }
}

/// What waits once the front call is taken: its caller goes to the back, if any of its
/// calls are left.
pub open spec fn dequeued<T>(lines: CallerLines<T>) -> CallerLines<T> {
    let paths = served(lines[0].1);
    if paths.len() == 0 {
        lines.skip(1)
    } else {
        lines.skip(1).push((lines[0].0, paths))
    }
}

/// An item that joins keeps the lines well-formed, makes its own line longer by itself and
/// leaves every other line alone.
pub proof fn law_item_joins_its_line<K, T>(lines: Lines<K, T>, key: K, item: T)
    requires
        lines_wf(lines),
    ensures
        lines_wf(joined(lines, key, item)),
        joined(lines, key, item).len() > 0,
        line_of(joined(lines, key, item), key) == line_of(lines, key).push(item),
        forall|other: K|
            other != key ==> #[trigger] line_of(joined(lines, key, item), other) == line_of(
                lines,
                other,
            ),
{
    let longer = line_of(lines, key).push(item);
    let after = joined(lines, key, item);
    lemma_filed(lines, key, longer);
    if has_key(lines, key) {
        assert(filed_at(lines, key, place_of(lines, key)));
    }
    assert forall|i: int| 0 <= i < after.len() implies (#[trigger] after[i]).1.len() > 0 by {
        if has_key(lines, key) {
            if i != place_of(lines, key) {
                assert(after[i] == lines[i]);
            }
        } else if i < lines.len() {
            assert(after[i] == lines[i]);
        }
    }
    assert forall|other: K| other != key implies #[trigger] line_of(after, other) == line_of(
        lines,
        other,
    ) by {
        assert(lookup(after, other) == lookup(lines, other));
    }
}

/// Serving keeps the lines well-formed, takes the first item of the front line and leaves
/// every other line alone.
pub proof fn law_item_leaves_the_head_of_its_line<K, T>(lines: Lines<K, T>)
    requires
        lines_wf(lines),
        lines.len() > 0,
    ensures
        lines_wf(served(lines)),
        line_of(lines, lines[0].0) == lines[0].1,
        line_of(served(lines), lines[0].0) == lines[0].1.skip(1),
        forall|other: K|
            other != lines[0].0 ==> #[trigger] line_of(served(lines), other) == line_of(
                lines,
                other,
            ),
{
    let key = lines[0].0;
    let rest = lines[0].1.skip(1);
    let after = served(lines);
    lemma_front_taken(lines);
    lemma_filed(lines.skip(1), key, rest);
    assert(forall|i: int| 0 <= i < lines.len() - 1 ==> lines.skip(1)[i] == lines[i + 1]);
    assert forall|i: int| 0 <= i < after.len() implies (#[trigger] after[i]).1.len() > 0 by {
        if i < lines.len() - 1 {
            assert(after[i] == lines[i + 1]);
        }
    }
    assert(line_of(after, key) =~= rest);
    assert forall|other: K| other != key implies #[trigger] line_of(after, other) == line_of(
        lines,
        other,
    ) by {
        assert(lookup(lines.skip(1), other) == lookup(lines, other));
    }
}

/// A call that joins keeps the lines well-formed, makes its own line longer by itself and
/// leaves every other line alone.
pub proof fn law_call_joins_its_line<T>(
    lines: CallerLines<T>,
    caller: PluginKey,
    path: ExecutionPathId,
    call: T,
)
    requires
        callers_wf(lines),
    ensures
        callers_wf(enqueued(lines, caller, path, call)),
        line(enqueued(lines, caller, path, call), caller, path) == line(lines, caller, path).push(
            call,
        ),
        forall|c: PluginKey, p: ExecutionPathId|
            (c, p) != (caller, path) ==> #[trigger] line(
                enqueued(lines, caller, path, call),
                c,
                p,
            ) == line(lines, c, p),
{
    let after = enqueued(lines, caller, path, call);
    let paths = caller_paths(lines, caller);
    let updated = joined(paths, path, call);
    if has_key(lines, caller) {
        assert(filed_at(lines, caller, place_of(lines, caller)));
    }
    law_item_joins_its_line(paths, path, call);
    lemma_filed(lines, caller, updated);
    assert forall|i: int| 0 <= i < after.len() implies (#[trigger] after[i]).1.len() > 0
        && lines_wf(after[i].1) by {
        if has_key(lines, caller) {
            if i != place_of(lines, caller) {
                assert(after[i] == lines[i]);
            }
        } else if i < lines.len() {
            assert(after[i] == lines[i]);
        }
    }
    assert forall|c: PluginKey, p: ExecutionPathId| (c, p) != (caller, path) implies #[trigger] line(
        after,
        c,
        p,
    ) == line(lines, c, p) by {
        if c == caller {
            assert(line_of(updated, p) == line_of(paths, p));
        } else {
            assert(lookup(after, c) == lookup(lines, c));
        }
    }
}

/// Taking the front call keeps the lines well-formed, takes the first call of the line of
/// the caller and the path whose turn it is, and leaves every other line alone.
pub proof fn law_call_leaves_the_head_of_its_line<T>(lines: CallerLines<T>)
    requires
        callers_wf(lines),
        lines.len() > 0,
    ensures
        callers_wf(dequeued(lines)),
        ({
            let caller = lines[0].0;
            let path = lines[0].1[0].0;
            &&& line(lines, caller, path).len() > 0
            &&& line(lines, caller, path)[0] == front(lines)
            &&& line(dequeued(lines), caller, path) == line(lines, caller, path).skip(1)
        }),
        forall|c: PluginKey, p: ExecutionPathId|
            (c, p) != (lines[0].0, lines[0].1[0].0) ==> #[trigger] line(dequeued(lines), c, p)
                == line(lines, c, p),
{
    let caller = lines[0].0;
    let paths = lines[0].1;
    let path = paths[0].0;
    let rest = served(paths);
    let after = dequeued(lines);
    lemma_front_taken(lines);
    law_item_leaves_the_head_of_its_line(paths);
    lemma_filed(lines.skip(1), caller, rest);
    assert(forall|i: int| 0 <= i < lines.len() - 1 ==> lines.skip(1)[i] == lines[i + 1]);
    assert forall|i: int| 0 <= i < after.len() implies (#[trigger] after[i]).1.len() > 0
        && lines_wf(after[i].1) by {
        if i < lines.len() - 1 {
            assert(after[i] == lines[i + 1]);
        }
    }
    assert(caller_paths(lines, caller) == paths);
    assert(caller_paths(after, caller) =~= rest);
    assert forall|c: PluginKey, p: ExecutionPathId| (c, p) != (caller, path) implies #[trigger] line(
        after,
        c,
        p,
    ) == line(lines, c, p) by {
        if c != caller {
            assert(lookup(lines.skip(1), c) == lookup(lines, c));
            assert(lookup(after, c) == lookup(lines, c));
        }
    }
}

/// The lines after `turns` items have been served.
pub open spec fn served_times<K, T>(lines: Lines<K, T>, turns: nat) -> Lines<K, T>
    decreases turns,
{
    if turns == 0 {
        lines
    } else {
        served_times(served(lines), (turns - 1) as nat)
    }
}

/// The lines after `turns` calls have been taken.
pub open spec fn dequeued_times<T>(lines: CallerLines<T>, turns: nat) -> CallerLines<T>
    decreases turns,
{
    if turns == 0 {
        lines
    } else {
        dequeued_times(dequeued(lines), (turns - 1) as nat)
    }
}

/// Keys take turns: the key with `turns` others in front of it is served after exactly that
/// many items, and not one of its own has been taken by then.
pub proof fn law_keys_take_turns<K, T>(lines: Lines<K, T>, turns: nat)
    requires
        lines_wf(lines),
        turns < lines.len(),
    ensures
        served_times(lines, turns).len() > 0,
        served_times(lines, turns)[0] == lines[turns as int],
    decreases turns,
{
    if turns > 0 {
        law_item_leaves_the_head_of_its_line(lines);
        let after = served(lines);
        assert(after[turns - 1] == lines[turns as int]);
        law_keys_take_turns(after, (turns - 1) as nat);
    }
}

/// Callers take turns: the caller with `turns` others in front of it is served after exactly
/// that many calls, and not one of its own has been taken by then.
pub proof fn law_callers_take_turns<T>(lines: CallerLines<T>, turns: nat)
    requires
        callers_wf(lines),
        turns < lines.len(),
    ensures
        dequeued_times(lines, turns).len() > 0,
        dequeued_times(lines, turns)[0] == lines[turns as int],
    decreases turns,
{
    if turns > 0 {
        law_call_leaves_the_head_of_its_line(lines);
        let after = dequeued(lines);
        assert(after[turns - 1] == lines[turns as int]);
        law_callers_take_turns(after, (turns - 1) as nat);
    }
}

/// How many items wait.
pub open spec fn items<K, T>(lines: Lines<K, T>) -> nat
    decreases lines.len(),
{
    if lines.len() == 0 {
        0
    } else {
        items(lines.drop_last()) + lines.last().1.len()
    }
}

/// How many calls wait.
pub open spec fn calls<T>(lines: CallerLines<T>) -> nat
    decreases lines.len(),
{
    if lines.len() == 0 {
        0
    } else {
        calls(lines.drop_last()) + items(lines.last().1)
    }
}

proof fn lemma_items_from_the_front<K, T>(lines: Lines<K, T>)
    requires
        lines.len() > 0,
    ensures
        items(lines) == lines[0].1.len() + items(lines.skip(1)),
    decreases lines.len(),
{
    if lines.len() == 1 {
        reveal_with_fuel(items, 2);
    } else {
        lemma_items_from_the_front(lines.drop_last());
        assert(lines.drop_last().skip(1) =~= lines.skip(1).drop_last());
    }
}

proof fn lemma_calls_from_the_front<T>(lines: CallerLines<T>)
    requires
        lines.len() > 0,
    ensures
        calls(lines) == items(lines[0].1) + calls(lines.skip(1)),
    decreases lines.len(),
{
    if lines.len() == 1 {
        reveal_with_fuel(calls, 2);
    } else {
        lemma_calls_from_the_front(lines.drop_last());
        assert(lines.drop_last().skip(1) =~= lines.skip(1).drop_last());
    }
}

proof fn lemma_one_call_fewer<T>(lines: CallerLines<T>)
    requires
        callers_wf(lines),
        lines.len() > 0,
    ensures
        calls(lines) == calls(dequeued(lines)) + 1,
{
    let paths = lines[0].1;
    let rest = served(paths);
    assert(lines_wf(paths));
    lemma_calls_from_the_front(lines);
    lemma_items_from_the_front(paths);
    if paths[0].1.skip(1).len() > 0 {
        assert(rest.drop_last() =~= paths.skip(1));
    }
    assert(items(paths) == items(rest) + 1);
    if rest.len() > 0 {
        assert(dequeued(lines).drop_last() =~= lines.skip(1));
    } else {
        assert(items(rest) == 0);
    }
}

/// The calls that `turns` turns take from one line, in order.
pub open spec fn taken_in<T>(
    lines: CallerLines<T>,
    turns: nat,
    caller: PluginKey,
    path: ExecutionPathId,
) -> Seq<T>
    decreases turns,
{
    if turns == 0 {
        Seq::empty()
    } else {
        let later = taken_in(dequeued(lines), (turns - 1) as nat, caller, path);
        if (lines[0].0, lines[0].1[0].0) == (caller, path) {
            seq![front(lines)] + later
        } else {
            later
        }
    }
}

/// As many turns as there are calls take every call once, those of one caller on one path in the
/// order in which they joined. Until then there is a call for every turn, and after it none.
pub proof fn law_every_call_gets_its_turn<T>(
    lines: CallerLines<T>,
    turns: nat,
    caller: PluginKey,
    path: ExecutionPathId,
)
    requires
        callers_wf(lines),
        turns <= calls(lines),
    ensures
        callers_wf(dequeued_times(lines, turns)),
        calls(dequeued_times(lines, turns)) == calls(lines) - turns,
        dequeued_times(lines, turns).len() == 0 <==> turns == calls(lines),
        taken_in(lines, turns, caller, path) + line(
            dequeued_times(lines, turns),
            caller,
            path,
        ) == line(lines, caller, path),
        turns == calls(lines) ==> taken_in(lines, turns, caller, path) == line(
            lines,
            caller,
            path,
        ),
    decreases turns,
{
    if lines.len() > 0 {
        lemma_one_call_fewer(lines);
    }
    if turns == 0 {
        assert(taken_in(lines, turns, caller, path) + line(lines, caller, path) =~= line(
            lines,
            caller,
            path,
        ));
        if lines.len() == 0 {
            assert(!has_key(lines, caller));
            assert(!has_key(caller_paths(lines, caller), path));
            assert(line(lines, caller, path) =~= Seq::empty());
        }
    } else {
        assert(lines.len() > 0);
        let rest = dequeued(lines);
        law_call_leaves_the_head_of_its_line(lines);
        law_every_call_gets_its_turn(rest, (turns - 1) as nat, caller, path);
        let later = taken_in(rest, (turns - 1) as nat, caller, path);
        let left = dequeued_times(lines, turns);
        if (lines[0].0, lines[0].1[0].0) == (caller, path) {
            let all = line(lines, caller, path);
            assert((seq![front(lines)] + later) + line(left, caller, path) =~= seq![front(lines)]
                + (later + line(left, caller, path)));
            assert(seq![all[0]] + all.skip(1) =~= all);
            assert(seq![front(lines)] + line(rest, caller, path) =~= all);
        }
    }
}

/// The first turns, as many as there are callers, go to distinct callers.
pub proof fn law_first_turns_go_to_distinct_callers<T>(lines: CallerLines<T>, i: nat, j: nat)
    requires
        callers_wf(lines),
        i < j < lines.len(),
    ensures
        dequeued_times(lines, i)[0].0 != dequeued_times(lines, j)[0].0,
{
    law_callers_take_turns(lines, i);
    law_callers_take_turns(lines, j);
    assert(lines[i as int].0 != lines[j as int].0);
}

/// When a key is served, every other one moves up by one place with all that it has waiting, and
/// the key that was served goes behind all of them if anything is left in its line.
pub proof fn law_served_key_goes_behind_the_others<K, T>(lines: Lines<K, T>)
    requires
        lines_wf(lines),
        lines.len() > 0,
    ensures
        forall|i: int| 1 <= i < lines.len() ==> served(lines)[i - 1] == #[trigger] lines[i],
        lines[0].1.len() == 1 ==> served(lines).len() == lines.len() - 1,
        lines[0].1.len() > 1 ==> served(lines).len() == lines.len() && served(lines).last() == (
            lines[0].0,
            lines[0].1.skip(1),
        ),
{
    assert(forall|i: int| 1 <= i < lines.len() ==> lines.skip(1)[i - 1] == #[trigger] lines[i]);
}

/// An item that joins moves no key: whoever waits keeps its place, and a new key comes last.
pub proof fn law_joining_keeps_keys_in_place<K, T>(lines: Lines<K, T>, key: K, item: T)
    requires
        lines_wf(lines),
    ensures
        forall|i: int|
            0 <= i < lines.len() ==> (#[trigger] joined(lines, key, item)[i]).0 == lines[i].0 && (
            lines[i].0 != key ==> joined(lines, key, item)[i] == lines[i]),
        has_key(lines, key) ==> joined(lines, key, item).len() == lines.len(),
        !has_key(lines, key) ==> joined(lines, key, item).len() == lines.len() + 1 && joined(
            lines,
            key,
            item,
        ).last() == (key, seq![item]),
{
    if has_key(lines, key) {
        assert(filed_at(lines, key, place_of(lines, key)));
    } else {
        assert(line_of(lines, key).push(item) =~= seq![item]);
    }
}

/// The paths of a caller take turns. When the front call is taken, every other path of its caller
/// moves up by one place with all its calls, and the path that was served goes behind all of them
/// if it has calls left. Every other caller moves up with all its paths as they were, and the
/// caller that was served goes behind all of them if it has calls left.
pub proof fn law_served_path_goes_behind_the_others<T>(lines: CallerLines<T>)
    requires
        callers_wf(lines),
        lines.len() > 0,
    ensures
        ({
            let paths = lines[0].1;
            let left = caller_paths(dequeued(lines), lines[0].0);
            &&& forall|j: int| 1 <= j < paths.len() ==> left[j - 1] == #[trigger] paths[j]
            &&& paths[0].1.len() == 1 ==> left.len() == paths.len() - 1
            &&& paths[0].1.len() > 1 ==> left.len() == paths.len() && left.last() == (
                paths[0].0,
                paths[0].1.skip(1),
            )
            &&& left.len() > 0 ==> dequeued(lines).len() == lines.len()
                && dequeued(lines).last().0 == lines[0].0
            &&& left.len() == 0 ==> dequeued(lines).len() == lines.len() - 1
        }),
        forall|i: int| 1 <= i < lines.len() ==> dequeued(lines)[i - 1] == #[trigger] lines[i],
        forall|other: PluginKey|
            other != lines[0].0 ==> #[trigger] caller_paths(dequeued(lines), other)
                == caller_paths(lines, other),
{
    let caller = lines[0].0;
    let paths = lines[0].1;
    let rest = served(paths);
    let after = dequeued(lines);
    assert(lines_wf(paths));
    lemma_front_taken(lines);
    law_served_key_goes_behind_the_others(paths);
    law_item_leaves_the_head_of_its_line(paths);
    lemma_filed(lines.skip(1), caller, rest);
    assert(forall|i: int| 1 <= i < lines.len() ==> lines.skip(1)[i - 1] == #[trigger] lines[i]);
    assert(caller_paths(after, caller) =~= rest);
    assert forall|other: PluginKey| other != caller implies #[trigger] caller_paths(after, other)
        == caller_paths(lines, other) by {
        assert(lookup(lines.skip(1), other) == lookup(lines, other));
        assert(lookup(after, other) == lookup(lines, other));
    }
}

/// The paths that the turns of one caller go to, among the first `turns` turns, in order.
pub open spec fn paths_served<T>(lines: CallerLines<T>, turns: nat, caller: PluginKey) -> Seq<
    ExecutionPathId,
>
    decreases turns,
{
    if turns == 0 {
        Seq::empty()
    } else {
        let later = paths_served(dequeued(lines), (turns - 1) as nat, caller);
        if lines[0].0 == caller {
            seq![lines[0].1[0].0] + later
        } else {
            later
        }
    }
}

/// The paths of a caller take turns: the first calls that are taken from a caller, as many as it
/// has paths, come from its paths one after the other, in the order in which they wait.
pub proof fn law_paths_of_a_caller_take_turns<T>(
    lines: CallerLines<T>,
    turns: nat,
    caller: PluginKey,
    k: int,
)
    requires
        callers_wf(lines),
        turns <= calls(lines),
        0 <= k < paths_served(lines, turns, caller).len(),
        k < caller_paths(lines, caller).len(),
    ensures
        paths_served(lines, turns, caller)[k] == caller_paths(lines, caller)[k].0,
    decreases turns,
{
    if turns > 0 {
        if lines.len() == 0 {
            assert(calls(lines) == 0);
        }
        lemma_one_call_fewer(lines);
        law_call_leaves_the_head_of_its_line(lines);
        law_served_path_goes_behind_the_others(lines);
        let rest = dequeued(lines);
        if lines[0].0 == caller {
            crate::ring::lemma_place_is(lines, caller, 0);
            assert(caller_paths(lines, caller) == lines[0].1);
            if k > 0 {
                assert(caller_paths(rest, caller)[k - 1] == lines[0].1[k]);
                law_paths_of_a_caller_take_turns(rest, (turns - 1) as nat, caller, k - 1);
            }
        } else {
            law_paths_of_a_caller_take_turns(rest, (turns - 1) as nat, caller, k);
        }
    }
}

/// A call that joins moves no path and no caller: whoever waits keeps its place, a new path comes
/// behind the others of its caller and a new caller behind the others, and what the other callers
/// have waiting stays as it is.
pub proof fn law_joining_keeps_paths_in_place<T>(
    lines: CallerLines<T>,
    caller: PluginKey,
    path: ExecutionPathId,
    call: T,
)
    requires
        callers_wf(lines),
    ensures
        ({
            let after = enqueued(lines, caller, path, call);
            let paths = caller_paths(lines, caller);
            let longer = caller_paths(after, caller);
            &&& forall|j: int|
                0 <= j < paths.len() ==> (#[trigger] longer[j]).0 == paths[j].0 && (paths[j].0
                    != path ==> longer[j] == paths[j])
            &&& has_key(paths, path) ==> longer.len() == paths.len()
            &&& !has_key(paths, path) ==> longer.len() == paths.len() + 1 && longer.last() == (
                path,
                seq![call],
            )
            &&& forall|i: int|
                0 <= i < lines.len() && lines[i].0 != caller ==> #[trigger] after[i] == lines[i]
            &&& has_key(lines, caller) ==> after.len() == lines.len()
            &&& !has_key(lines, caller) ==> after.len() == lines.len() + 1 && after.last().0
                == caller
        }),
{
    let paths = caller_paths(lines, caller);
    if has_key(lines, caller) {
        assert(filed_at(lines, caller, place_of(lines, caller)));
    }
    assert(lines_wf(paths));
    lemma_filed(lines, caller, joined(paths, path, call));
    law_joining_keeps_keys_in_place(paths, path, call);
}

/// The number that a queue goes by is that of the first call on the first path of the caller whose
/// turn it is. A queue without calls goes by the largest number.
pub proof fn law_queue_goes_by_its_front_call<T: Created>(lines: CallerLines<T>)
    requires
        callers_wf(lines),
    ensures
        lines.len() > 0 ==> next_created(lines) == line(
            lines,
            lines[0].0,
            lines[0].1[0].0,
        )[0].created(),
        lines.len() == 0 ==> next_created(lines) == u64::MAX,
{
    if lines.len() > 0 {
        law_call_leaves_the_head_of_its_line(lines);
    }
}

/// A call that joins takes no caller's turn away: whoever waits keeps its place.
pub proof fn law_joining_keeps_turns<T>(
    lines: CallerLines<T>,
    caller: PluginKey,
    path: ExecutionPathId,
    call: T,
)
    requires
        callers_wf(lines),
    ensures
        lines.len() <= enqueued(lines, caller, path, call).len(),
        forall|i: int|
            0 <= i < lines.len() ==> (#[trigger] enqueued(lines, caller, path, call)[i]).0
                == lines[i].0,
{
    if has_key(lines, caller) {
        assert(filed_at(lines, caller, place_of(lines, caller)));
    }
}

/// Values that carry the number in which they were created.
pub trait Created {
    spec fn created(&self) -> u64;

    /// The number in which this was created.
    fn sequence(&self) -> (result: u64)
        ensures
            result == self.created(),
    ;
}

/// Lines as they are held.
pub type HeldLines<K, T> = RoundRobin<K, VecDeque<T>>;

/// What held lines hold.
pub open spec fn opened<K, T>(entries: Seq<(K, VecDeque<T>)>) -> Lines<K, T> {
    entries.map_values(|entry: (K, VecDeque<T>)| (entry.0, entry.1@))
}

/// What the held lines of every caller hold.
pub open spec fn open_callers<T>(
    entries: Seq<(PluginKey, HeldLines<ExecutionPathId, T>)>,
) -> CallerLines<T> {
    entries.map_values(
        |entry: (PluginKey, HeldLines<ExecutionPathId, T>)| (entry.0, opened(entry.1@)),
    )
}

/// `item` joins the end of its key's line.
fn join_line<K: RingKey, T>(lines: HeldLines<K, T>, key: K, item: T) -> (longer: HeldLines<K, T>)
    requires
        lines.wf(),
    ensures
        longer.wf(),
        opened(longer@) == joined(opened(lines@), key, item),
{
    let push = |line: VecDeque<T>| -> (longer: VecDeque<T>)
        ensures
            longer@ == line@.push(item),
        {
            let mut longer = line;
            longer.push_back(item);
            longer
        };
    let longer = lines.update(key, push);
    proof {
        let (before, after) = choose|before: VecDeque<T>, after: VecDeque<T>|
            {
                &&& match lookup(lines@, key) {
                    Some(value) => before == value,
                    None => call_ensures(VecDeque::<T>::default, (), before),
                }
                &&& #[trigger] call_ensures(push, (before,), after)
                &&& longer@ == filed(lines@, key, after)
            };
        lemma_filed_mapped(
            lines@,
            key,
            after,
            |entry: (K, VecDeque<T>)| (entry.0, entry.1@),
        );
    }
    longer
}

/// Takes the first item of the front line, whose key then waits behind the others.
fn serve_line<K: RingKey, T>(lines: HeldLines<K, T>) -> (result: (HeldLines<K, T>, Option<T>))
    requires
        lines.wf(),
        lines_wf(opened(lines@)),
    ensures
        result.0.wf(),
        match result.1 {
            Some(item) => lines@.len() > 0 && item == opened(lines@)[0].1[0] && opened(result.0@)
                == served(opened(lines@)),
            None => lines@.len() == 0 && result.0@ == lines@,
        },
{
    let ghost start = opened(lines@);
    let mut held = lines;
    match held.pop() {
        None => (held, None),
        Some((key, line)) => {
            assert(start[0].1 == line@);
            let mut rest = line;
            let item = rest.pop_front();
            assert(rest@ =~= start[0].1.skip(1));
            proof {
                lemma_front_taken(lines@);
            }
            let held = if rest.len() == 0 {
                held
            } else {
                held.insert(key, rest)
            };
            assert(opened(held@) =~= served(start));
            (held, item)
        },
    }
}

/// The calls that wait for one destination: callers take turns, the paths of a caller
/// take turns, and on a path the first call is served first.
pub struct DestinationQueue<T> {
    callers: RoundRobin<PluginKey, HeldLines<ExecutionPathId, T>>,
}

impl<T> View for DestinationQueue<T> {
    type V = CallerLines<T>;

    closed spec fn view(&self) -> CallerLines<T> {
        open_callers(self.callers@)
    }
}

impl<T> Default for DestinationQueue<T> {
    fn default() -> (result: Self)
        ensures
            result.wf(),
            result@ == Seq::<(PluginKey, Lines<ExecutionPathId, T>)>::empty(),
    {
        let queue = DestinationQueue { callers: RoundRobin::default() };
        assert(queue@ =~= Seq::<(PluginKey, Lines<ExecutionPathId, T>)>::empty());
        queue
    }
}

impl<T> DestinationQueue<T> {
    /// Every ring has distinct keys, and no ring or line in it is empty.
    pub closed spec fn wf(&self) -> bool {
        &&& self.callers.wf()
        &&& forall|i: int| 0 <= i < self.callers@.len() ==> (#[trigger] self.callers@[i]).1.wf()
        &&& callers_wf(self@)
    }

    /// `call` joins the end of its path's line.
    pub fn enqueue(self, caller: PluginKey, path: ExecutionPathId, call: T) -> (result: Self)
        requires
            self.wf(),
        ensures
            result.wf(),
            result@ == enqueued(self@, caller, path, call),
    {
        let add = |paths: HeldLines<ExecutionPathId, T>| -> (longer: HeldLines<ExecutionPathId, T>)
            requires
                paths.wf(),
            ensures
                longer.wf(),
                opened(longer@) == joined(opened(paths@), path, call),
            { join_line(paths, path, call) };
        let ghost start = self.callers@;
        let callers = self.callers.update(caller, add);
        proof {
            let (before, after) = choose|
                before: HeldLines<ExecutionPathId, T>,
                after: HeldLines<ExecutionPathId, T>,
            |
                {
                    &&& match lookup(start, caller) {
                        Some(value) => before == value,
                        None => call_ensures(HeldLines::<ExecutionPathId, T>::default, (), before),
                    }
                    &&& #[trigger] call_ensures(add, (before,), after)
                    &&& callers@ == filed(start, caller, after)
                };
            if has_key(start, caller) {
                assert(filed_at(start, caller, place_of(start, caller)));
            } else {
                assert(opened(before@) =~= Seq::<(ExecutionPathId, Seq<T>)>::empty());
            }
            lemma_filed_mapped(
                start,
                caller,
                after,
                |entry: (PluginKey, HeldLines<ExecutionPathId, T>)| (entry.0, opened(entry.1@)),
            );
            law_call_joins_its_line(self@, caller, path, call);
        }
        DestinationQueue { callers }
    }

    /// Takes the call whose turn it is.
    pub fn dequeue(self) -> (result: (Self, Option<T>))
        requires
            self.wf(),
        ensures
            result.0.wf(),
            match result.1 {
                Some(call) => self@.len() > 0 && call == front(self@) && result.0@ == dequeued(
                    self@,
                ),
                None => self@.len() == 0 && result.0@ == self@,
            },
    {
        let ghost lines = self@;
        let mut callers = self.callers;
        let ghost start = callers@;
        match callers.pop() {
            None => (DestinationQueue { callers }, None),
            Some((caller, paths)) => {
                assert(lines[0].1 == opened(paths@));
                assert(start[0].1.wf());
                let (paths, call) = serve_line(paths);
                proof {
                    law_call_leaves_the_head_of_its_line(lines);
                    lemma_front_taken(start);
                }
                let callers = if paths.is_empty() {
                    callers
                } else {
                    callers.insert(caller, paths)
                };
                let queue = DestinationQueue { callers };
                assert(queue@ =~= dequeued(lines));
                (queue, call)
            },
        }
    }

    /// Whether no call waits.
    pub fn is_empty(&self) -> (result: bool)
        ensures
            result == (self@.len() == 0),
    {
        self.callers.is_empty()
    }
}

/// Callers of a queue are distinct, as are the paths of a caller, and nothing empty is kept.
pub proof fn law_queue_keeps_its_lines_apart<T>(queue: DestinationQueue<T>)
    requires
        queue.wf(),
    ensures
        callers_wf(queue@),
{
}

impl<T: Created> DestinationQueue<T> {
    /// The number of the call whose turn it is, or the largest number if none waits.
    pub fn next_sequence(&self) -> (result: u64)
        requires
            self.wf(),
        ensures
            result == next_created(self@),
    {
        match self.callers.peek() {
            None => u64::MAX,
            Some(paths) => {
                assert(self@[0].1 == opened(paths@));
                match paths.peek() {
                    None => u64::MAX,
                    Some(calls) => {
                        assert(self@[0].1[0].1 == calls@);
                        if calls.len() == 0 {
                            u64::MAX
                        } else {
                            calls[0].sequence()
                        }
                    },
                }
            },
        }
    }
}

/// The number of the call whose turn it is, or the largest number if none waits.
pub open spec fn next_created<T: Created>(lines: CallerLines<T>) -> u64 {
    if lines.len() == 0 {
        u64::MAX
    } else {
        front(lines).created()
    }
}

/// The destination whose front call was created first, if any destination is known.
pub fn oldest_destination<T: Created>(queues: &HashMap<PluginKey, DestinationQueue<T>>) -> (result:
    Option<PluginKey>)
    requires
        forall|key: PluginKey| #[trigger] queues@.contains_key(key) ==> queues@[key].wf(),
    ensures
        match result {
            Some(oldest) => queues@.contains_key(oldest) && forall|key: PluginKey|
                #[trigger] queues@.contains_key(key) ==> next_created(queues@[oldest]@)
                    <= next_created(queues@[key]@),
            None => queues@.dom() =~= Set::empty(),
        },
{
    broadcast use vstd::std_specs::hash::group_hash_axioms;

    let mut oldest: Option<(PluginKey, u64)> = None;
    for entry in it: queues.iter()
        invariant
            forall|key: PluginKey| #[trigger] queues@.contains_key(key) ==> queues@[key].wf(),
            match oldest {
                Some((key, created)) => queues@.contains_key(key) && created == next_created(
                    queues@[key]@,
                ) && forall|i: int|
                    0 <= i < it.index() ==> created <= next_created((#[trigger] it.seq()[i]).1@),
                None => it.index() == 0,
            },
    {
        assert(queues@.contains_key(*entry.0) && queues@[*entry.0] == *entry.1);
        let created = entry.1.next_sequence();
        let earlier = match oldest {
            Some((_, least)) => created < least,
            None => true,
        };
        if earlier {
            oldest = Some((*entry.0, created));
        }
    }
    match oldest {
        Some((key, _)) => Some(key),
        None => None,
    }
}

/// Requests of several callers: callers take turns, and a caller's first request is served
/// first.
pub struct RequestQueues<R> {
    callers: HeldLines<u64, R>,
}

impl<R> View for RequestQueues<R> {
    type V = Lines<u64, R>;

    closed spec fn view(&self) -> Lines<u64, R> {
        opened(self.callers@)
    }
}

impl<R> Default for RequestQueues<R> {
    fn default() -> (result: Self)
        ensures
            result.wf(),
            result@ == Seq::<(u64, Seq<R>)>::empty(),
    {
        let queues = RequestQueues { callers: RoundRobin::default() };
        assert(queues@ =~= Seq::<(u64, Seq<R>)>::empty());
        queues
    }
}

impl<R> RequestQueues<R> {
    /// Keys are distinct and no empty line is kept.
    pub closed spec fn wf(&self) -> bool {
        self.callers.wf() && lines_wf(self@)
    }

    /// `request` joins the end of its caller's line.
    pub fn push(&mut self, caller: u64, request: R)
        requires
            old(self).wf(),
        ensures
            final(self).wf(),
            final(self)@ == joined(old(self)@, caller, request),
    {
        let mut callers: HeldLines<u64, R> = RoundRobin::default();
        std::mem::swap(&mut callers, &mut self.callers);
        self.callers = join_line(callers, caller, request);
        proof {
            law_item_joins_its_line(old(self)@, caller, request);
        }
    }

    /// Takes the request whose turn it is.
    pub fn pop(&mut self) -> (result: Option<R>)
        requires
            old(self).wf(),
        ensures
            final(self).wf(),
            match result {
                Some(request) => old(self)@.len() > 0 && request == old(self)@[0].1[0]
                    && final(self)@ == served(old(self)@),
                None => old(self)@.len() == 0 && final(self)@ == old(self)@,
            },
    {
        let mut callers: HeldLines<u64, R> = RoundRobin::default();
        std::mem::swap(&mut callers, &mut self.callers);
        let (callers, request) = serve_line(callers);
        self.callers = callers;
        proof {
            if old(self)@.len() > 0 {
                law_item_leaves_the_head_of_its_line(old(self)@);
            }
        }
        request
    }
}

/// A call that is taken out of a queue heads the line of the first path of the first caller, and
/// leaves it. The other paths of that caller move up by one place, and the path goes behind them.
pub proof fn law_dequeue_serves_the_first_path<T>(
    queue: DestinationQueue<T>,
    result: (DestinationQueue<T>, Option<T>),
)
    requires
        queue.wf(),
        call_ensures(DestinationQueue::<T>::dequeue, (queue,), result),
    ensures
        result.1 is Some <==> queue@.len() > 0,
        queue@.len() == 0 ==> result.0@.len() == 0,
        queue@.len() > 0 ==> {
            let caller = queue@[0].0;
            let paths = queue@[0].1;
            let left = caller_paths(result.0@, caller);
            &&& result.1 == Some(paths[0].1[0])
            &&& line(result.0@, caller, paths[0].0) == line(queue@, caller, paths[0].0).skip(1)
            &&& forall|j: int| 1 <= j < paths.len() ==> left[j - 1] == #[trigger] paths[j]
            &&& paths[0].1.len() == 1 ==> left.len() == paths.len() - 1
            &&& paths[0].1.len() > 1 ==> left.len() == paths.len() && left.last().0 == paths[0].0
            &&& forall|i: int| 1 <= i < queue@.len() ==> result.0@[i - 1] == #[trigger] queue@[i]
        },
{
    if queue@.len() > 0 {
        law_served_path_goes_behind_the_others(queue@);
        law_call_leaves_the_head_of_its_line(queue@);
    }
}

/// A call that joins a queue is the last on its path, and is taken after all that were there. No
/// other path of any caller changes.
pub proof fn law_enqueue_joins_the_end_of_the_line<T>(
    queue: DestinationQueue<T>,
    caller: PluginKey,
    path: ExecutionPathId,
    call: T,
    result: DestinationQueue<T>,
)
    requires
        queue.wf(),
        call_ensures(DestinationQueue::<T>::enqueue, (queue, caller, path, call), result),
    ensures
        line(result@, caller, path).len() == line(queue@, caller, path).len() + 1,
        line(result@, caller, path).drop_last() == line(queue@, caller, path),
        line(result@, caller, path).last() == call,
        forall|c: PluginKey, p: ExecutionPathId|
            (c, p) != (caller, path) ==> #[trigger] line(result@, c, p) == line(queue@, c, p),
        result@.len() > 0,
        queue@.len() > 0 ==> result@[0].0 == queue@[0].0 && front(result@) == front(queue@),
        queue@.len() == 0 ==> front(result@) == call,
{
    law_call_joins_its_line(queue@, caller, path, call);
    law_joining_keeps_paths_in_place(queue@, caller, path, call);
    let earlier = line(queue@, caller, path);
    assert(earlier.push(call).drop_last() =~= earlier);
    if queue@.len() > 0 {
        let first = queue@[0].0;
        crate::ring::lemma_place_is(queue@, first, 0);
        assert(line(queue@, first, queue@[0].1[0].0).len() > 0) by {
            law_call_leaves_the_head_of_its_line(queue@);
        }
        if first == caller {
            assert(has_key(queue@, caller));
            assert(place_of(queue@, caller) == 0);
            let paths = queue@[0].1;
            assert(paths.len() > 0);
            if has_key(paths, path) {
                assert(filed_at(paths, path, place_of(paths, path)));
            }
        } else {
            assert(result@[0] == queue@[0]);
        }
    } else {
        assert(!has_key(queue@, caller));
        let none = Seq::<(ExecutionPathId, Seq<T>)>::empty();
        assert(caller_paths(queue@, caller) =~= none);
        assert(!has_key(none, path));
        assert(line_of(none, path).push(call) =~= seq![call]);
    }
}

/// The destination that goes first is one whose front call has the smallest number.
pub proof fn law_oldest_destination_is_longest_due<T: Created>(
    queues: &HashMap<PluginKey, DestinationQueue<T>>,
    result: Option<PluginKey>,
    other: PluginKey,
)
    requires
        call_ensures(oldest_destination::<T>, (queues,), result),
        queues@.contains_key(other),
        queues@[other].wf(),
        queues@[other]@.len() > 0,
        result is Some ==> queues@[result->0].wf() && queues@[result->0]@.len() > 0,
    ensures
        result is Some,
        queues@.contains_key(result->0),
        front(queues@[result->0]@).created() <= front(queues@[other]@).created(),
{
    assert(queues@.dom().contains(other));
}

} // verus!
