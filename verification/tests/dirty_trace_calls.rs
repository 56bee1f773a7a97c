use understory::dirty::{
    drain_affected_sorted_with_trace, Channel, CycleHandling, DirtyGraph, DirtySet, DirtyTrace, DirtyTracker,
    DrainCompletion, DrainSorted, EagerPolicy, TraceCall, TraversalScratch,
};

fn layout() -> Channel {
    Channel::new(0)
}

struct CallLog {
    calls: Vec<TraceCall<u32>>,
}

impl DirtyTrace<u32> for CallLog {
    fn root(&mut self, key: u32, channel: Channel, newly_dirty: bool) {
        self.calls.push(TraceCall::Root(key, channel, newly_dirty));
    }

    fn caused_by(&mut self, key: u32, because: u32, channel: Channel, newly_dirty: bool) {
        self.calls.push(TraceCall::CausedBy(key, because, channel, newly_dirty));
    }
}

fn diamond() -> DirtyGraph<u32> {
    // 2 and 3 depend on 1; 4 depends on 2 and 3.
    let mut graph = DirtyGraph::new();
    graph.add_dependency(2, 1, layout(), CycleHandling::Error).unwrap();
    graph.add_dependency(3, 1, layout(), CycleHandling::Error).unwrap();
    graph.add_dependency(4, 2, layout(), CycleHandling::Error).unwrap();
    graph.add_dependency(4, 3, layout(), CycleHandling::Error).unwrap();
    graph
}

#[test]
fn affected_drain_reports_every_followed_edge() {
    let graph = diamond();
    let mut dirty = DirtySet::new();
    dirty.mark(1u32, layout());

    let mut scratch = TraversalScratch::new();
    let mut log = CallLog { calls: Vec::new() };
    let sorted =
        drain_affected_sorted_with_trace(&mut dirty, &graph, layout(), &mut scratch, &mut log).collect_with_completion().0;

    assert_eq!(sorted.len(), 4);
    assert_eq!(log.calls[0], TraceCall::Root(1, layout(), true));
    // One call per edge followed: 1->2, 1->3, then both edges into 4.
    assert_eq!(log.calls.len(), 5);
    let newly: Vec<u32> = log
        .calls
        .iter()
        .filter_map(|c| match *c {
            TraceCall::Root(k, _, true) | TraceCall::CausedBy(k, _, _, true) => Some(k),
            _ => None,
        })
        .collect();
    let mut reached = newly.clone();
    reached.sort();
    assert_eq!(reached, vec![1, 2, 3, 4]);
    let repeats = log.calls.iter().filter(|c| matches!(c, TraceCall::CausedBy(4, _, _, false))).count();
    assert_eq!(repeats, 1);
}

#[test]
fn eager_trace_reports_each_dependent_once() {
    let graph = diamond();
    let mut dirty = DirtySet::new();
    dirty.mark(3u32, layout());

    let mut scratch = TraversalScratch::new();
    let mut log = CallLog { calls: Vec::new() };
    EagerPolicy.propagate_with_trace(1, layout(), &graph, &mut dirty, &mut scratch, &mut log);

    assert_eq!(log.calls[0], TraceCall::Root(1, layout(), true));
    assert_eq!(log.calls.len(), 4);
    for call in &log.calls[1..] {
        match *call {
            TraceCall::CausedBy(3, because, _, newly) => {
                assert_eq!(because, 1);
                assert!(!newly);
            }
            TraceCall::CausedBy(2, because, _, newly) => {
                assert_eq!(because, 1);
                assert!(newly);
            }
            TraceCall::CausedBy(4, because, _, newly) => {
                assert!(because == 2 || because == 3);
                assert!(newly);
            }
            _ => panic!("unexpected call"),
        }
    }
    for k in 1..=4u32 {
        assert!(dirty.is_dirty(k, layout()));
    }
}

#[test]
fn peek_and_drain_yield_the_same_order() {
    let mut t = DirtyTracker::<u32>::with_cycle_handling(CycleHandling::Error);
    t.add_dependency(5, 9, layout()).unwrap();
    t.add_dependency(7, 9, layout()).unwrap();
    t.add_dependency(2, 7, layout()).unwrap();
    for k in [2u32, 5, 7, 9, 4] {
        t.mark(k, layout());
    }
    let peeked = t.peek_sorted_deterministic(layout()).collect_with_completion().0;
    let drained = t.drain_sorted_deterministic(layout()).collect_with_completion().0;
    assert_eq!(peeked, vec![4, 9, 5, 7, 2]);
    assert_eq!(peeked, drained);
}

#[test]
fn a_stalled_drain_leaves_a_cycle_pending() {
    let mut graph = DirtyGraph::new();
    graph.add_dependency(1, 2, layout(), CycleHandling::Allow).unwrap();
    graph.add_dependency(2, 1, layout(), CycleHandling::Allow).unwrap();
    graph.add_dependency(3, 1, layout(), CycleHandling::Allow).unwrap();
    let keys = vec![3u32, 2, 1, 4];
    let (yielded, completion) = DrainSorted::from_iter_with_capacity(keys, 4, &graph, layout()).collect_with_completion();
    assert_eq!(yielded, vec![4]);
    assert_eq!(completion, DrainCompletion::Stalled { remaining: 3 });
}
