use std::collections::HashMap;

use wasm_link::graph::{PluginNode, graph_metadata};
use wasm_link::path::{ExecutionPathId, PluginKey};
use wasm_link::queue::{DestinationQueue, RequestQueues, oldest_destination};
use wasm_link::ring::RoundRobin;
use wasm_link::scheduler::{AsyncScheduler, ScheduledCall, SchedulerSlot};
use wasm_link::turn::{Phase, SchedulerFuture, Turn};

type TestCall = ScheduledCall<&'static str, ()>;

fn call(sequence: u64, name: &'static str) -> TestCall {
    ScheduledCall { sequence, target: name, request: () }
}

type Calls = AsyncScheduler<&'static str, &'static str, &'static str>;

fn path(serial: u64) -> ExecutionPathId {
    ExecutionPathId { serial, depth: 0 }
}

fn node(key: PluginKey) -> PluginNode {
    PluginNode::new(key, Vec::new())
}

fn scheduler(depths: Vec<(PluginKey, usize)>) -> Calls {
    AsyncScheduler::new(HashMap::from_iter(depths))
}

#[test]
fn destination_queue_rotates_callers_then_paths_and_preserves_path_fifo() {
    let caller_a = node(1);
    let caller_b = node(2);
    let mut queue = DestinationQueue::default()
        .enqueue(caller_a.key(), path(1), call(0, "a1-first"))
        .enqueue(caller_b.key(), path(3), call(3, "b1"))
        .enqueue(caller_a.key(), path(1), call(1, "a1-second"))
        .enqueue(caller_a.key(), path(2), call(2, "a2"));
    let mut order = Vec::new();
    while !queue.is_empty() {
        let (remaining, call) = queue.dequeue();
        queue = remaining;
        if let Some(call) = call {
            order.push(call.target);
        }
    }
    assert_eq!(order, ["a1-first", "b1", "a2", "a1-second"]);
}

#[test]
fn scheduler_chooses_the_oldest_eligible_destination() {
    let caller = node(1);
    let older = node(2);
    let newer = node(3);
    let queues = HashMap::from([
        (
            newer.key(),
            DestinationQueue::default().enqueue(
                caller.key(),
                path(1),
                call(2, "newer"),
            ),
        ),
        (
            older.key(),
            DestinationQueue::default().enqueue(
                caller.key(),
                path(2),
                call(1, "older"),
            ),
        ),
    ]);
    assert_eq!(oldest_destination(&queues), Some(older.key()));
}

#[test]
fn no_destination_is_oldest_among_none() {
    let queues: HashMap<PluginKey, DestinationQueue<TestCall>> = HashMap::new();
    assert_eq!(oldest_destination(&queues), None);
}

#[test]
fn execution_depth_follows_the_calling_plugin() {
    let caller = node(7);
    let mut scheduler = scheduler(vec![(caller.key(), 2)]);
    let root = scheduler.root_path();
    let child = scheduler.execution_path(caller.key());
    assert_eq!(root.depth, 0);
    assert_eq!(child.depth, 3);
}

#[test]
fn calls_of_an_unknown_plugin_run_at_depth_one() {
    let mut scheduler = scheduler(Vec::new());
    assert_eq!(scheduler.origin(), 0);
    assert_eq!(scheduler.root_path(), ExecutionPathId { serial: 1, depth: 0 });
    assert_eq!(scheduler.execution_path(9), ExecutionPathId { serial: 2, depth: 1 });
    assert_eq!(scheduler.root_path(), ExecutionPathId { serial: 3, depth: 0 });
}

#[test]
fn async_requests_are_fifo_per_caller_and_round_robin_between_callers() {
    let mut queues = RequestQueues::default();
    queues.push(1, "a1".to_string());
    queues.push(1, "a2".to_string());
    queues.push(2, "b1".to_string());
    queues.push(2, "b2".to_string());
    let order = std::iter::from_fn(|| queues.pop()).collect::<Vec<_>>();
    assert_eq!(order, ["a1", "b1", "a2", "b2"]);
}

#[test]
fn round_robin_takes_turns() {
    let ring: RoundRobin<u64, u8> = RoundRobin::default();
    assert!(ring.is_empty());
    let mut ring = ring.insert(5, 50).insert(6, 60).insert(5, 51);
    assert_eq!(ring.peek(), Some(&51));
    assert_eq!(ring.pop(), Some((5, 51)));
    assert_eq!(ring.pop(), Some((6, 60)));
    assert_eq!(ring.pop(), None);
}

#[test]
fn empty_destination_has_no_call() {
    let queue: DestinationQueue<TestCall> = DestinationQueue::default();
    assert_eq!(queue.next_sequence(), u64::MAX);
    let (queue, call) = queue.dequeue();
    assert!(queue.is_empty());
    assert!(call.is_none());
}

#[test]
fn deepest_calls_leave_first_then_the_oldest_destination() {
    let mut scheduler = scheduler(Vec::new());
    let shallow = ExecutionPathId { serial: 1, depth: 0 };
    let deep = ExecutionPathId { serial: 2, depth: 4 };
    assert_eq!(scheduler.schedule(1, shallow, 10, "ten", "first"), Ok(()));
    assert_eq!(scheduler.schedule(1, deep, 11, "eleven", "second"), Ok(()));
    assert_eq!(scheduler.schedule(1, deep, 10, "ten", "third"), Ok(()));
    assert_eq!(scheduler.schedule(1, deep, 11, "eleven", "fourth"), Ok(()));
    let mut order = Vec::new();
    while let Some(call) = scheduler.take_call() {
        order.push((call.sequence, call.target, call.request));
    }
    assert_eq!(
        order,
        [
            (1, "eleven", "second"),
            (2, "ten", "third"),
            (3, "eleven", "fourth"),
            (0, "ten", "first"),
        ],
    );
}

#[test]
fn closed_scheduler_hands_back_calls_and_drivers() {
    let mut scheduler = scheduler(Vec::new());
    assert_eq!(scheduler.schedule(1, path(1), 2, "target", "waiting"), Ok(()));
    assert_eq!(scheduler.attach_driver("before"), Ok(()));
    let left = scheduler.close();
    assert_eq!(left.len(), 1);
    assert_eq!(left[&0].len(), 1);
    assert!(scheduler.take_call().is_none());
    assert_eq!(scheduler.schedule(1, path(1), 2, "target", "late"), Err("late"));
    assert_eq!(scheduler.attach_driver("after"), Err("after"));
    assert_eq!(scheduler.take_drivers(), ["before"]);
    assert!(scheduler.take_drivers().is_empty());
}

#[test]
fn slot_restores_what_it_held() {
    let mut slot = SchedulerSlot::new();
    let Err(error) = slot.require() else { panic!("an empty slot has a scheduler") };
    assert_eq!(error.message(), "plugin call has no active async dispatch scheduler");
    let outer = slot.attach("outer");
    let inner = slot.attach("inner");
    assert!(matches!(slot.require(), Ok(&"inner")));
    assert_eq!(slot.release(inner), Some("inner"));
    assert!(matches!(slot.require(), Ok(&"outer")));
    assert_eq!(slot.release(outer), Some("outer"));
    assert!(slot.require().is_err());
}

#[test]
fn graph_lists_each_plugin_once_in_key_order_at_its_greatest_depth() {
    let shared = PluginNode::new(2, Vec::new());
    let branch = PluginNode::new(9, vec![shared.clone()]);
    let root = PluginNode::new(5, vec![shared.clone(), branch]);
    let (nodes, depths) = graph_metadata(&[root]);
    assert_eq!(nodes.iter().map(PluginNode::key).collect::<Vec<_>>(), [2, 5, 9]);
    assert_eq!(depths, HashMap::from([(5, 0), (9, 1), (2, 2)]));
}

#[test]
fn turn_admits_a_call_then_sweeps_then_polls_the_root_again() {
    let mut scheduler = scheduler(Vec::new());
    let mut future = SchedulerFuture::new();
    assert_eq!(scheduler.schedule(1, path(1), 2, "target", "request"), Ok(()));
    let Turn::Admit(call) = future.root_polled(&mut scheduler, false) else {
        panic!("a waiting call was not admitted");
    };
    assert_eq!(call.request, "request");
    assert_eq!(future.phase(), Phase::Admitting);
    for driver in ["a", "b", "c"] {
        assert_eq!(scheduler.attach_driver(driver), Ok(()));
    }
    future.call_admitted(&mut scheduler);
    let mut polled = Vec::new();
    while let Some(driver) = future.driver_due().map(|driver| *driver) {
        polled.push(driver);
        let gone = future.driver_polled(driver == "a");
        assert_eq!(gone, if driver == "a" { Some("a") } else { None });
    }
    polled.sort_unstable();
    assert_eq!(polled, ["a", "b", "c"]);
    assert!(future.sweep_done());
    assert_eq!(future.phase(), Phase::Root);
}

#[test]
fn turn_waits_when_nothing_moves_and_ends_with_the_root() {
    let mut scheduler = scheduler(Vec::new());
    let mut future = SchedulerFuture::new();
    assert_eq!(scheduler.attach_driver("idle"), Ok(()));
    assert!(matches!(future.root_polled(&mut scheduler, false), Turn::Sweep));
    assert_eq!(future.driver_due().map(|driver| *driver), Some("idle"));
    assert_eq!(future.driver_polled(false), None);
    assert_eq!(future.driver_due(), None);
    assert!(!future.sweep_done());
    assert!(matches!(future.root_polled(&mut scheduler, false), Turn::Sweep));
    assert_eq!(future.driver_polled(true), Some("idle"));
    assert!(future.sweep_done());
    assert_eq!(scheduler.schedule(1, path(1), 2, "target", "dropped"), Ok(()));
    let Turn::Finish(calls) = future.root_polled(&mut scheduler, true) else {
        panic!("a finished root did not end the session");
    };
    assert_eq!(calls.len(), 1);
    assert_eq!(future.phase(), Phase::Finished);
    assert_eq!(scheduler.schedule(1, path(1), 2, "target", "late"), Err("late"));
}
