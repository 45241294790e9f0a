//! The dependency graph of loaded plugins.

use crate::path::PluginKey;
use std::collections::HashMap;
use std::sync::Arc;
use vstd::prelude::*;

verus! {

/// A loaded plugin and the plugins that it calls. Copies share the node.
pub struct PluginNode {
    data: Arc<PluginNodeData>,
}

struct PluginNodeData {
    key: PluginKey,
    dependencies: Vec<PluginNode>,
}

impl Clone for PluginNode {
    fn clone(&self) -> (result: Self)
        ensures
            result == *self,
    {
        PluginNode { data: self.data.clone() }
    }
}

impl PluginNode {
    /// The key of the plugin.
    pub closed spec fn id(&self) -> PluginKey {
        self.data.key
    }

    /// The plugins that it calls.
    pub closed spec fn dependencies(&self) -> Seq<PluginNode> {
        self.data.dependencies@
    }

    /// A chain of `steps` calls leads from this plugin to `target`.
    pub open spec fn leads_to(&self, target: PluginNode, steps: nat) -> bool
        decreases steps,
    {
        if steps == 0 {
            *self == target
        } else {
            exists|i: int|
                0 <= i < self.dependencies().len() && (#[trigger] self.dependencies()[i]).leads_to(
                    target,
                    (steps - 1) as nat,
                )
        }
    }

    /// A plugin with `key` that calls `dependencies`.
    pub fn new(key: PluginKey, dependencies: Vec<PluginNode>) -> (result: Self)
        ensures
            result.id() == key,
            result.dependencies() == dependencies@,
    {
        PluginNode { data: Arc::new(PluginNodeData { key, dependencies }) }
    }

    /// The key of the plugin.
    pub fn key(&self) -> (result: PluginKey)
        ensures
            result == self.id(),
    {
        self.data.key
    }
}

/// A chain of `steps` calls leads from one of `roots` to `target`.
pub open spec fn found_at(roots: Seq<PluginNode>, target: PluginNode, steps: nat) -> bool {
    exists|i: int| 0 <= i < roots.len() && (#[trigger] roots[i]).leads_to(target, steps)
}

/// Some chain of calls leads from one of `roots` to `target`.
pub open spec fn found(roots: Seq<PluginNode>, target: PluginNode) -> bool {
    exists|steps: nat| found_at(roots, target, steps)
}

/// Among the plugins that `roots` lead to, equal keys mean the same plugin.
pub open spec fn keys_identify(roots: Seq<PluginNode>) -> bool {
    forall|x: PluginNode, y: PluginNode, s: nat, t: nat|
        #[trigger] found_at(roots, x, s) && #[trigger] found_at(roots, y, t) && x.id() == y.id()
            ==> x == y
}

/// Every chain of calls can be counted in a `usize`.
pub open spec fn chains_countable(roots: Seq<PluginNode>) -> bool {
    forall|x: PluginNode, s: nat| #[trigger] found_at(roots, x, s) ==> s <= usize::MAX
}

/// One more call extends a chain by its dependency.
proof fn lemma_chain_extends(node: PluginNode, target: PluginNode, steps: nat, i: int)
    requires
        node.leads_to(target, steps),
        0 <= i < target.dependencies().len(),
    ensures
        node.leads_to(target.dependencies()[i], steps + 1),
    decreases steps,
{
    let next = target.dependencies()[i];
    if steps == 0 {
        assert(next.leads_to(next, 0));
        assert(node.dependencies()[i].leads_to(next, (steps + 1 - 1) as nat));
    } else {
        let j = choose|j: int|
            0 <= j < node.dependencies().len() && (#[trigger] node.dependencies()[j]).leads_to(
                target,
                (steps - 1) as nat,
            );
        lemma_chain_extends(node.dependencies()[j], target, (steps - 1) as nat, i);
        assert(node.dependencies()[j].leads_to(next, (steps + 1 - 1) as nat));
    }
}

/// What is found leads on to its dependencies, one step further.
proof fn lemma_found_extends(roots: Seq<PluginNode>, target: PluginNode, steps: nat, i: int)
    requires
        found_at(roots, target, steps),
        0 <= i < target.dependencies().len(),
    ensures
        found_at(roots, target.dependencies()[i], steps + 1),
{
    let r = choose|r: int| 0 <= r < roots.len() && (#[trigger] roots[r]).leads_to(target, steps);
    lemma_chain_extends(roots[r], target, steps, i);
}

/// Depths recorded so far, each with the plugin that it was recorded for.
type Depths = Map<PluginKey, (PluginNode, usize)>;

/// Every record is that of a plugin found at the recorded depth.
spec fn sound(depths: Depths, roots: Seq<PluginNode>) -> bool {
    forall|key: PluginKey| #[trigger]
        depths.contains_key(key) ==> depths[key].0.id() == key && found_at(
            roots,
            depths[key].0,
            depths[key].1 as nat,
        )
}

/// `key` is recorded at `depth` or deeper.
spec fn recorded(depths: Depths, key: PluginKey, depth: int) -> bool {
    depths.contains_key(key) && depths[key].1 >= depth
}

/// Every dependency of the plugin recorded under `key` is recorded deeper than it.
spec fn settled(depths: Depths, key: PluginKey) -> bool {
    forall|i: int|
        0 <= i < depths[key].0.dependencies().len() ==> recorded(
            depths,
            (#[trigger] depths[key].0.dependencies()[i]).id(),
            depths[key].1 + 1,
        )
}

/// Nothing that `before` records is lost or made shallower.
spec fn deepened(before: Depths, after: Depths) -> bool {
    forall|key: PluginKey| #[trigger]
        before.contains_key(key) ==> recorded(after, key, before[key].1 as int)
}

/// Whatever `after` records otherwise than `before` is settled.
spec fn changes_settled(before: Depths, after: Depths) -> bool {
    forall|key: PluginKey| #[trigger]
        after.contains_key(key) ==> settled(after, key) || (before.contains_key(key)
            && before[key] == after[key])
}

proof fn lemma_settled_kept(before: Depths, after: Depths, key: PluginKey)
    requires
        before.contains_key(key),
        after.contains_key(key),
        before[key] == after[key],
        settled(before, key),
        deepened(before, after),
    ensures
        settled(after, key),
{
    assert forall|i: int| 0 <= i < after[key].0.dependencies().len() implies recorded(
        after,
        (#[trigger] after[key].0.dependencies()[i]).id(),
        after[key].1 + 1,
    ) by {
        let dependency = before[key].0.dependencies()[i];
        assert(recorded(before, dependency.id(), before[key].1 + 1));
        assert(before.contains_key(dependency.id()));
    }
}

/// Changes that are settled one after the other are settled together.
proof fn lemma_changes_chain(first: Depths, second: Depths, third: Depths)
    requires
        deepened(first, second),
        deepened(second, third),
        changes_settled(first, second),
        changes_settled(second, third),
    ensures
        deepened(first, third),
        changes_settled(first, third),
{
    assert forall|key: PluginKey| #[trigger] first.contains_key(key) implies recorded(
        third,
        key,
        first[key].1 as int,
    ) by {
        assert(recorded(second, key, first[key].1 as int));
        assert(second.contains_key(key));
    }
    assert forall|key: PluginKey| #[trigger] third.contains_key(key) implies settled(third, key)
        || (first.contains_key(key) && first[key] == third[key]) by {
        if !settled(third, key) {
            assert(second.contains_key(key) && second[key] == third[key]);
            if settled(second, key) {
                lemma_settled_kept(second, third, key);
            }
        }
    }
}

/// Records `node` at `depth`, and what it leads to further down, wherever that is deeper
/// than what is recorded already.
fn visit(
    node: &PluginNode,
    depth: usize,
    depths: &mut HashMap<PluginKey, (PluginNode, usize)>,
    Ghost(roots): Ghost<Seq<PluginNode>>,
)
    requires
        sound(old(depths)@, roots),
        chains_countable(roots),
        found_at(roots, *node, depth as nat),
    ensures
        sound(final(depths)@, roots),
        deepened(old(depths)@, final(depths)@),
        changes_settled(old(depths)@, final(depths)@),
        recorded(final(depths)@, node.id(), depth as int),
    decreases *node,
{
    broadcast use vstd::std_specs::hash::group_hash_axioms;

    let key = node.key();
    if let Some(previous) = depths.get(&key) {
        if previous.1 >= depth {
            return;
        }
    }
    depths.insert(key, (node.clone(), depth));
    let ghost start = depths@;
    proof {
        assert(deepened(old(depths)@, start));
    }
    let mut i: usize = 0;
    while i < node.data.dependencies.len()
        invariant
            i <= node.data.dependencies@.len(),
            node.data.dependencies@ == node.dependencies(),
            key == node.id(),
            chains_countable(roots),
            found_at(roots, *node, depth as nat),
            sound(depths@, roots),
            start.contains_key(key),
            start[key] == (*node, depth),
            deepened(start, depths@),
            changes_settled(start, depths@),
            forall|j: int|
                0 <= j < i ==> recorded(
                    depths@,
                    (#[trigger] node.dependencies()[j]).id(),
                    depth + 1,
                ),
        decreases node.data.dependencies@.len() - i,
    {
        let ghost before = depths@;
        proof {
            lemma_found_extends(roots, *node, depth as nat, i as int);
            assert(decreases_to!(*node => node.data.dependencies@[i as int]));
        }
        visit(&node.data.dependencies[i], depth + 1, depths, Ghost(roots));
        proof {
            lemma_changes_chain(start, before, depths@);
            assert forall|j: int| 0 <= j < i + 1 implies recorded(
                depths@,
                (#[trigger] node.dependencies()[j]).id(),
                depth + 1,
            ) by {
                if j < i {
                    assert(before.contains_key(node.dependencies()[j].id()));
                }
            }
        }
        i += 1;
    }
    proof {
        let end = depths@;
        assert(end.contains_key(key)) by {
            assert(start.contains_key(key));
        }
        assert forall|other: PluginKey| #[trigger] end.contains_key(other) implies settled(
            end,
            other,
        ) || (old(depths)@.contains_key(other) && old(depths)@[other] == end[other]) by {
            if !settled(end, other) {
                assert(start.contains_key(other) && start[other] == end[other]);
                assert(other != key);
            }
        }
        assert forall|other: PluginKey| #[trigger] old(depths)@.contains_key(other) implies recorded(
            end,
            other,
            old(depths)@[other].1 as int,
        ) by {
            assert(start.contains_key(other));
        }
    }
}

/// From a plugin that is recorded with everything settled, whatever it leads to is recorded
/// at least as many steps deeper.
proof fn lemma_settled_reach(
    depths: Depths,
    roots: Seq<PluginNode>,
    node: PluginNode,
    at: nat,
    target: PluginNode,
    steps: nat,
)
    requires
        keys_identify(roots),
        sound(depths, roots),
        forall|key: PluginKey| #[trigger] depths.contains_key(key) ==> settled(depths, key),
        found_at(roots, node, at),
        recorded(depths, node.id(), at as int),
        node.leads_to(target, steps),
    ensures
        found_at(roots, target, at + steps),
        recorded(depths, target.id(), (at + steps) as int),
    decreases steps,
{
    if steps > 0 {
        let i = choose|i: int|
            0 <= i < node.dependencies().len() && (#[trigger] node.dependencies()[i]).leads_to(
                target,
                (steps - 1) as nat,
            );
        assert(depths[node.id()].0 == node);
        assert(settled(depths, node.id()));
        assert(recorded(depths, depths[node.id()].0.dependencies()[i].id(), depths[node.id()].1 + 1));
        lemma_found_extends(roots, node, at, i);
        lemma_settled_reach(
            depths,
            roots,
            node.dependencies()[i],
            at + 1,
            target,
            (steps - 1) as nat,
        );
    }
}

/// Keys rise from each plugin to the next.
pub open spec fn ascending(nodes: Seq<PluginNode>) -> bool {
    forall|i: int, j: int|
        0 <= i < j < nodes.len() ==> (#[trigger] nodes[i]).id() < (#[trigger] nodes[j]).id()
}

/// Places `node`, whose key is new, among plugins in ascending order of keys.
fn insert_ascending(nodes: &mut Vec<PluginNode>, node: PluginNode)
    requires
        ascending(old(nodes)@),
        forall|i: int| 0 <= i < old(nodes)@.len() ==> (#[trigger] old(nodes)@[i]).id() != node.id(),
    ensures
        ascending(final(nodes)@),
        exists|at: int|
            0 <= at <= old(nodes)@.len() && final(nodes)@ == #[trigger] old(nodes)@.insert(at, node),
{
    let mut at: usize = 0;
    let key = node.key();
    while at < nodes.len() && nodes[at].key() < key
        invariant
            at <= nodes@.len(),
            nodes@ == old(nodes)@,
            key == node.id(),
            forall|i: int| 0 <= i < at ==> (#[trigger] nodes@[i]).id() < key,
        decreases nodes@.len() - at,
    {
        at += 1;
    }
    let ghost before = nodes@;
    nodes.insert(at, node);
    proof {
        assert forall|i: int, j: int| 0 <= i < j < nodes@.len() implies (#[trigger] nodes@[i]).id()
            < (#[trigger] nodes@[j]).id() by {
            let from = if i < at { i } else { i - 1 };
            let to = if j < at { j } else { j - 1 };
            if i != at && j != at {
                assert(before[from].id() < before[to].id());
            } else if i == at {
                assert(before[at as int].id() > key);
                if to > at {
                    assert(before[at as int].id() < before[to].id());
                }
            }
        }
    }
}

/// What `depths` has to say of the plugins that `roots` lead to: every one of them is there,
/// with the length of the longest chain of calls that leads to it.
pub open spec fn longest_chains(roots: Seq<PluginNode>, depths: Map<PluginKey, usize>) -> bool {
    &&& forall|x: PluginNode, s: nat| #[trigger]
        found_at(roots, x, s) ==> depths.contains_key(x.id()) && s <= depths[x.id()]
    &&& forall|key: PluginKey| #[trigger]
        depths.contains_key(key) ==> exists|x: PluginNode|
            x.id() == key && #[trigger] found_at(roots, x, depths[key] as nat)
}

/// `nodes` are the plugins that `roots` lead to, each once, in ascending order of keys.
pub open spec fn all_in_order(roots: Seq<PluginNode>, nodes: Seq<PluginNode>) -> bool {
    &&& ascending(nodes)
    &&& forall|x: PluginNode, s: nat| #[trigger] found_at(roots, x, s) ==> nodes.contains(x)
    &&& forall|i: int|
        0 <= i < nodes.len() ==> found(roots, #[trigger] nodes[i])
}

/// The plugins that `roots` lead to, in the order in which a session takes hold of them, and
/// how deep each of them lies.
pub fn graph_metadata(roots: &[PluginNode]) -> (result: (
    Vec<PluginNode>,
    HashMap<PluginKey, usize>,
))
    requires
        keys_identify(roots@),
        chains_countable(roots@),
    ensures
        all_in_order(roots@, result.0@),
        longest_chains(roots@, result.1@),
{
    broadcast use vstd::std_specs::hash::group_hash_axioms;

    let mut records: HashMap<PluginKey, (PluginNode, usize)> = HashMap::new();
    let mut r: usize = 0;
    while r < roots.len()
        invariant
            r <= roots@.len(),
            chains_countable(roots@),
            sound(records@, roots@),
            forall|key: PluginKey| #[trigger]
                records@.contains_key(key) ==> settled(records@, key),
            forall|i: int| 0 <= i < r ==> recorded(records@, (#[trigger] roots@[i]).id(), 0),
        decreases roots@.len() - r,
    {
        let ghost before = records@;
        assert(roots@[r as int].leads_to(roots@[r as int], 0));
        visit(&roots[r], 0, &mut records, Ghost(roots@));
        proof {
            assert forall|key: PluginKey| #[trigger] records@.contains_key(key) implies settled(
                records@,
                key,
            ) by {
                if !settled(records@, key) {
                    lemma_settled_kept(before, records@, key);
                }
            }
            assert forall|i: int| 0 <= i < r + 1 implies recorded(
                records@,
                (#[trigger] roots@[i]).id(),
                0,
            ) by {
                if i < r {
                    assert(before.contains_key(roots@[i].id()));
                }
            }
        }
        r += 1;
    }
    proof {
        assert forall|x: PluginNode, s: nat| #[trigger] found_at(roots@, x, s) implies recorded(
            records@,
            x.id(),
            s as int,
        ) by {
            let i = choose|i: int|
                0 <= i < roots@.len() && (#[trigger] roots@[i]).leads_to(x, s);
            assert(roots@[i].leads_to(roots@[i], 0));
            assert(found_at(roots@, roots@[i], 0));
            lemma_settled_reach(records@, roots@, roots@[i], 0, x, s);
        }
    }
    let mut nodes: Vec<PluginNode> = Vec::new();
    let mut depths: HashMap<PluginKey, usize> = HashMap::new();
    for entry in it: records.iter()
        invariant
            sound(records@, roots@),
            it.seq().no_duplicates(),
            forall|i: int|
                0 <= i < it.seq().len() ==> records@.contains_key(*(#[trigger] it.seq()[i]).0)
                    && records@[*it.seq()[i].0] == *it.seq()[i].1,
            ascending(nodes@),
            forall|i: int|
                0 <= i < nodes@.len() ==> depths@.contains_key((#[trigger] nodes@[i]).id())
                    && records@[nodes@[i].id()].0 == nodes@[i],
            forall|key: PluginKey| #[trigger]
                depths@.contains_key(key) ==> records@.contains_key(key) && depths@[key]
                    == records@[key].1 && nodes@.contains(records@[key].0) && exists|i: int|
                    0 <= i < it.index() && *(#[trigger] it.seq()[i]).0 == key,
            forall|i: int|
                0 <= i < it.index() ==> depths@.contains_key(*(#[trigger] it.seq()[i]).0),
    {
        let ghost at = it.index();
        let key = *entry.0;
        assert(it.seq()[at] == entry);
        proof {
            if depths@.contains_key(key) {
                let i = choose|i: int| 0 <= i < at && *(#[trigger] it.seq()[i]).0 == key;
                assert(it.seq()[i] == it.seq()[at]);
            }
        }
        let ghost before = nodes@;
        insert_ascending(&mut nodes, entry.1.0.clone());
        depths.insert(key, entry.1.1);
        proof {
            let place = choose|place: int|
                0 <= place <= before.len() && nodes@ == #[trigger] before.insert(
                    place,
                    entry.1.0,
                );
            assert(nodes@[place] == entry.1.0);
            assert forall|n: PluginNode| before.contains(n) implies nodes@.contains(n) by {
                let i = choose|i: int| 0 <= i < before.len() && before[i] == n;
                if i < place {
                    assert(nodes@[i] == n);
                } else {
                    assert(nodes@[i + 1] == n);
                }
            }
            assert forall|i: int| 0 <= i < nodes@.len() implies depths@.contains_key(
                (#[trigger] nodes@[i]).id(),
            ) && records@[nodes@[i].id()].0 == nodes@[i] by {
                if i < place {
                    assert(nodes@[i] == before[i]);
                } else if i > place {
                    assert(nodes@[i] == before[i - 1]);
                }
            }
        }
    }
    proof {
        assert forall|x: PluginNode, s: nat| #[trigger] found_at(roots@, x, s) implies nodes@.contains(
            x,
        ) by {
            assert(records@.contains_key(x.id()));
            assert(records@[x.id()].0 == x);
            assert(depths@.contains_key(x.id()));
        }
        assert forall|i: int| 0 <= i < nodes@.len() implies found(
            roots@,
            #[trigger] nodes@[i],
        ) by {
            let key = nodes@[i].id();
            assert(depths@.contains_key(key));
            assert(found_at(roots@, nodes@[i], records@[key].1 as nat));
        }
    }
    (nodes, depths)
}

/// A plugin lies deeper than everything that calls it.
pub proof fn law_dependencies_lie_deeper(
    roots: Seq<PluginNode>,
    depths: Map<PluginKey, usize>,
    node: PluginNode,
    steps: nat,
    i: int,
)
    requires
        keys_identify(roots),
        longest_chains(roots, depths),
        found_at(roots, node, steps),
        0 <= i < node.dependencies().len(),
    ensures
        depths[node.dependencies()[i].id()] > depths[node.id()],
{
    let x = choose|x: PluginNode|
        x.id() == node.id() && #[trigger] found_at(roots, x, depths[node.id()] as nat);
    lemma_found_extends(roots, node, depths[node.id()] as nat, i);
}

/// Two sessions that share plugins take hold of them in the same order, so neither can hold
/// what the other waits for while it waits in turn.
pub proof fn law_shared_plugins_in_one_order(
    first: Seq<PluginNode>,
    second: Seq<PluginNode>,
    i: int,
    j: int,
    k: int,
    l: int,
)
    requires
        ascending(first),
        ascending(second),
        0 <= i < j < first.len(),
        0 <= k < second.len(),
        0 <= l < second.len(),
        first[i].id() == second[k].id(),
        first[j].id() == second[l].id(),
    ensures
        k < l,
{
    if l < k {
        assert(second[l].id() < second[k].id());
    }
    assert(first[i].id() < first[j].id());
}

/// `session` holds every plugin of `nodes`, where `holders` says who holds a plugin. Nobody holds
/// one together with another.
pub open spec fn holds_all(
    holders: Map<PluginKey, nat>,
    nodes: Seq<PluginNode>,
    session: nat,
) -> bool {
    forall|i: int|
        0 <= i < nodes.len() ==> holders.contains_key((#[trigger] nodes[i]).id())
            && holders[nodes[i].id()] == session
}

/// Sessions that share a plugin do not run at the same time: two that both hold every plugin that
/// they can reach, and can reach a common one, are the same session.
pub proof fn law_sessions_that_share_a_plugin_do_not_overlap(
    holders: Map<PluginKey, nat>,
    first_roots: Seq<PluginNode>,
    first: Seq<PluginNode>,
    first_session: nat,
    second_roots: Seq<PluginNode>,
    second: Seq<PluginNode>,
    second_session: nat,
    shared: PluginNode,
)
    requires
        all_in_order(first_roots, first),
        all_in_order(second_roots, second),
        found(first_roots, shared),
        found(second_roots, shared),
        holds_all(holders, first, first_session),
        holds_all(holders, second, second_session),
    ensures
        first_session == second_session,
{
    let s = choose|steps: nat| found_at(first_roots, shared, steps);
    let t = choose|steps: nat| found_at(second_roots, shared, steps);
    assert(found_at(first_roots, shared, s) && found_at(second_roots, shared, t));
    assert(first.contains(shared) && second.contains(shared));
    let i = choose|i: int| 0 <= i < first.len() && first[i] == shared;
    let j = choose|j: int| 0 <= j < second.len() && second[j] == shared;
    assert(holders[first[i].id()] == first_session);
    assert(holders[second[j].id()] == second_session);
}

/// Sessions do not wait for each other in a circle: where one waits for a plugin that another
/// holds, which has taken the plugins before place `j` of its own and waits at `j`, the other
/// waits for a plugin with a greater key. Along a chain of such waits keys rise.
pub proof fn law_waits_lead_to_greater_keys(
    first: Seq<PluginNode>,
    i: int,
    second: Seq<PluginNode>,
    held: int,
    j: int,
)
    requires
        ascending(second),
        0 <= i < first.len(),
        0 <= held < j < second.len(),
        first[i].id() == second[held].id(),
    ensures
        first[i].id() < second[j].id(),
{
}

proof fn lemma_chain_ends_with_a_dependent(node: PluginNode, target: PluginNode, steps: nat) -> (result:
    (PluginNode, int))
    requires
        steps > 0,
        node.leads_to(target, steps),
    ensures
        node.leads_to(result.0, (steps - 1) as nat),
        0 <= result.1 < result.0.dependencies().len(),
        result.0.dependencies()[result.1] == target,
    decreases steps,
{
    let i = choose|i: int|
        0 <= i < node.dependencies().len() && (#[trigger] node.dependencies()[i]).leads_to(
            target,
            (steps - 1) as nat,
        );
    if steps == 1 {
        (node, i)
    } else {
        let (dependent, at) = lemma_chain_ends_with_a_dependent(
            node.dependencies()[i],
            target,
            (steps - 1) as nat,
        );
        assert(node.dependencies()[i].leads_to(dependent, (steps - 2) as nat));
        (dependent, at)
    }
}

/// `dependent` depends on the plugin `key`.
pub open spec fn depends_on(dependent: PluginNode, key: PluginKey) -> bool {
    exists|i: int|
        0 <= i < dependent.dependencies().len() && (#[trigger] dependent.dependencies()[i]).id()
            == key
}

/// A plugin that does not lie at the top lies exactly one deeper than the deepest that depends on
/// it: one that depends on it lies one above it.
pub proof fn law_plugins_lie_just_below_a_dependent(
    roots: Seq<PluginNode>,
    depths: Map<PluginKey, usize>,
    key: PluginKey,
)
    requires
        keys_identify(roots),
        longest_chains(roots, depths),
        depths.contains_key(key),
    ensures
        depths[key] > 0 ==> exists|dependent: PluginNode| #[trigger]
            depends_on(dependent, key) && found(roots, dependent) && depths[dependent.id()]
                == depths[key] - 1,
        depths[key] == 0 ==> exists|i: int| 0 <= i < roots.len() && (#[trigger] roots[i]).id()
            == key,
{
    let steps = depths[key] as nat;
    let x = choose|x: PluginNode| x.id() == key && #[trigger] found_at(roots, x, steps);
    let i = choose|i: int| 0 <= i < roots.len() && (#[trigger] roots[i]).leads_to(x, steps);
    if steps == 0 {
        assert(roots[i] == x);
    } else {
        let (dependent, at) = lemma_chain_ends_with_a_dependent(roots[i], x, steps);
        assert(found_at(roots, dependent, (steps - 1) as nat));
        assert(found(roots, dependent));
        assert(depends_on(dependent, key));
        law_dependencies_lie_deeper(roots, depths, dependent, (steps - 1) as nat, at);
    }
}

/// Every root has a depth, every dependency of a plugin that has a depth has one, and only plugins
/// that are found have one.
pub proof fn law_every_reachable_plugin_has_a_depth(
    roots: Seq<PluginNode>,
    depths: Map<PluginKey, usize>,
    node: PluginNode,
    steps: nat,
    i: int,
)
    requires
        longest_chains(roots, depths),
    ensures
        0 <= i < roots.len() ==> depths.contains_key(roots[i].id()),
        found_at(roots, node, steps) && 0 <= i < node.dependencies().len() ==> depths.contains_key(
            node.dependencies()[i].id(),
        ),
        depths.contains_key(node.id()) ==> exists|x: PluginNode| #[trigger]
            found(roots, x) && x.id() == node.id(),
{
    if 0 <= i < roots.len() {
        assert(roots[i].leads_to(roots[i], 0));
        assert(found_at(roots, roots[i], 0));
    }
    if found_at(roots, node, steps) && 0 <= i < node.dependencies().len() {
        lemma_found_extends(roots, node, steps, i);
    }
    if depths.contains_key(node.id()) {
        let x = choose|x: PluginNode|
            x.id() == node.id() && #[trigger] found_at(roots, x, depths[node.id()] as nat);
        assert(found(roots, x));
    }
}

} // verus!
