use understory::dirty::{
    drain_affected_sorted, drain_affected_sorted_with_trace, drain_sorted, Channel, CycleHandling, DirtyGraph,
    DirtySet, DrainCompletion, DrainSorted, DrainSortedDeterministic, OneParentRecorder, TraversalScratch,
};

fn layout() -> Channel {
    Channel::new(0)
}

#[test]
fn topological_order_chain() {
    let mut graph = DirtyGraph::new();
    graph.add_dependency(2, 1, layout(), CycleHandling::Error).unwrap();
    graph.add_dependency(3, 2, layout(), CycleHandling::Error).unwrap();
    graph.add_dependency(4, 3, layout(), CycleHandling::Error).unwrap();

    let dirty_keys: Vec<u32> = vec![4, 2, 1, 3];
    let cap = dirty_keys.len();
    let sorted = DrainSorted::from_iter_with_capacity(dirty_keys, cap, &graph, layout()).collect_with_completion().0;

    assert_eq!(sorted, vec![1, 2, 3, 4]);
}

#[test]
fn topological_order_diamond() {
    let mut graph = DirtyGraph::new();
    graph.add_dependency(2, 1, layout(), CycleHandling::Error).unwrap();
    graph.add_dependency(3, 1, layout(), CycleHandling::Error).unwrap();
    graph.add_dependency(4, 2, layout(), CycleHandling::Error).unwrap();
    graph.add_dependency(4, 3, layout(), CycleHandling::Error).unwrap();

    let dirty_keys: Vec<u32> = vec![4, 3, 2, 1];
    let cap = dirty_keys.len();
    let sorted = DrainSorted::from_iter_with_capacity(dirty_keys, cap, &graph, layout()).collect_with_completion().0;

    assert_eq!(sorted[0], 1);
    assert_eq!(sorted[3], 4);
    assert!(sorted[1] == 2 || sorted[1] == 3);
    assert!(sorted[2] == 2 || sorted[2] == 3);
}

#[test]
fn partial_dirty_set() {
    let mut graph = DirtyGraph::new();
    graph.add_dependency(2, 1, layout(), CycleHandling::Error).unwrap();
    graph.add_dependency(3, 2, layout(), CycleHandling::Error).unwrap();

    let dirty_keys: Vec<u32> = vec![3, 2];
    let cap = dirty_keys.len();
    let sorted = DrainSorted::from_iter_with_capacity(dirty_keys, cap, &graph, layout()).collect_with_completion().0;

    assert_eq!(sorted, vec![2, 3]);
}

#[test]
fn no_dependencies() {
    let graph = DirtyGraph::<u32>::new();
    let dirty_keys: Vec<u32> = vec![3, 1, 2];
    let cap = dirty_keys.len();
    let sorted = DrainSorted::from_iter_with_capacity(dirty_keys, cap, &graph, layout()).collect_with_completion().0;

    assert_eq!(sorted.len(), 3);
}

#[test]
fn drain_sorted_function() {
    let mut graph = DirtyGraph::new();
    graph.add_dependency(2, 1, layout(), CycleHandling::Error).unwrap();

    let mut dirty = DirtySet::new();
    dirty.mark(1u32, layout());
    dirty.mark(2, layout());

    let sorted = drain_sorted(&mut dirty, &graph, layout()).collect_with_completion().0;
    assert_eq!(sorted, vec![1, 2]);

    assert!(!dirty.has_dirty(layout()));
}

#[test]
fn empty_dirty_set() {
    let graph = DirtyGraph::<u32>::new();
    let dirty_keys: Vec<u32> = vec![];
    let cap = dirty_keys.len();
    let sorted = DrainSorted::from_iter_with_capacity(dirty_keys, cap, &graph, layout()).collect_with_completion().0;
    assert!(sorted.is_empty());
}

#[test]
fn size_hint_accurate() {
    let mut graph = DirtyGraph::new();
    graph.add_dependency(2, 1, layout(), CycleHandling::Error).unwrap();

    let dirty_keys: Vec<u32> = vec![1, 2];
    let cap = dirty_keys.len();
    let mut drain = DrainSorted::from_iter_with_capacity(dirty_keys, cap, &graph, layout());

    assert_eq!(drain.size_hint(), (2, Some(2)));
    assert_eq!(drain.remaining(), 2);

    let _ = drain.next();
    assert_eq!(drain.size_hint(), (1, Some(1)));

    let _ = drain.next();
    assert_eq!(drain.size_hint(), (0, Some(0)));
    assert!(drain.is_empty());
}

#[test]
fn duplicate_keys_deduplicated() {
    let mut graph = DirtyGraph::new();
    graph.add_dependency(2, 1, layout(), CycleHandling::Error).unwrap();

    let dirty_keys: Vec<u32> = vec![1, 2, 1, 2, 1];
    let cap = dirty_keys.len();
    let sorted = DrainSorted::from_iter_with_capacity(dirty_keys, cap, &graph, layout()).collect_with_completion().0;

    assert_eq!(sorted.len(), 2);
    assert_eq!(sorted, vec![1, 2]);
}

#[test]
fn cycles_stall_drain() {
    let mut graph = DirtyGraph::new();
    graph.add_dependency(2, 1, layout(), CycleHandling::Allow).unwrap();
    graph.add_dependency(3, 2, layout(), CycleHandling::Allow).unwrap();
    graph.add_dependency(1, 3, layout(), CycleHandling::Allow).unwrap();

    let dirty_keys: Vec<u32> = vec![1, 2, 3];
    let cap = dirty_keys.len();
    let mut drain = DrainSorted::from_iter_with_capacity(dirty_keys, cap, &graph, layout());
    let sorted = drain.drain_all();

    assert!(sorted.is_empty(), "cycle should prevent any keys from being yielded");
    assert!(drain.is_stalled());
    assert_eq!(drain.completion(), DrainCompletion::Stalled { remaining: 3 });
}

#[test]
fn cycles_stall_drain_collect_with_completion() {
    let mut graph = DirtyGraph::new();
    graph.add_dependency(2, 1, layout(), CycleHandling::Allow).unwrap();
    graph.add_dependency(3, 2, layout(), CycleHandling::Allow).unwrap();
    graph.add_dependency(1, 3, layout(), CycleHandling::Allow).unwrap();

    let mut dirty = DirtySet::new();
    dirty.mark(1u32, layout());
    dirty.mark(2, layout());
    dirty.mark(3, layout());

    let (sorted, completion) = drain_sorted(&mut dirty, &graph, layout()).collect_with_completion();
    assert!(sorted.is_empty());
    assert_eq!(completion, DrainCompletion::Stalled { remaining: 3 });
}

#[test]
fn drain_affected_sorted_expands_dependents() {
    let mut graph = DirtyGraph::new();
    graph.add_dependency(2, 1, layout(), CycleHandling::Error).unwrap();
    graph.add_dependency(3, 2, layout(), CycleHandling::Error).unwrap();
    graph.add_dependency(4, 3, layout(), CycleHandling::Error).unwrap();

    let mut dirty = DirtySet::new();
    dirty.mark(1u32, layout());

    let sorted = drain_affected_sorted(&mut dirty, &graph, layout()).collect_with_completion().0;
    assert_eq!(sorted, vec![1, 2, 3, 4]);

    assert!(!dirty.has_dirty(layout()));
}

#[test]
fn drain_affected_sorted_multiple_roots() {
    let mut graph = DirtyGraph::new();
    graph.add_dependency(2, 1, layout(), CycleHandling::Error).unwrap();
    graph.add_dependency(4, 3, layout(), CycleHandling::Error).unwrap();

    let mut dirty = DirtySet::new();
    dirty.mark(1u32, layout());
    dirty.mark(3, layout());

    let sorted = drain_affected_sorted(&mut dirty, &graph, layout()).collect_with_completion().0;
    assert_eq!(sorted.len(), 4);
}

#[test]
fn deterministic_topological_order_diamond_is_total() {
    let mut graph = DirtyGraph::<u32>::new();
    graph.add_dependency(2, 1, layout(), CycleHandling::Error).unwrap();
    graph.add_dependency(3, 1, layout(), CycleHandling::Error).unwrap();
    graph.add_dependency(4, 2, layout(), CycleHandling::Error).unwrap();
    graph.add_dependency(4, 3, layout(), CycleHandling::Error).unwrap();

    let dirty_keys: Vec<u32> = vec![4, 3, 2, 1];
    let cap = dirty_keys.len();
    let sorted =
        DrainSortedDeterministic::from_iter_with_capacity(dirty_keys, cap, &graph, layout()).collect_with_completion().0;

    assert_eq!(sorted, vec![1, 2, 3, 4]);
}

#[test]
fn affected_sorted_with_trace_records_one_path() {
    let mut graph = DirtyGraph::new();
    graph.add_dependency(2, 1, layout(), CycleHandling::Error).unwrap();
    graph.add_dependency(3, 2, layout(), CycleHandling::Error).unwrap();

    let mut dirty = DirtySet::new();
    dirty.mark(1u32, layout());

    let mut scratch = TraversalScratch::new();
    let mut rec = OneParentRecorder::new();
    let sorted =
        drain_affected_sorted_with_trace(&mut dirty, &graph, layout(), &mut scratch, &mut rec).collect_with_completion().0;

    assert_eq!(sorted, vec![1, 2, 3]);
    assert_eq!(rec.explain_path(3, layout()).unwrap(), vec![1, 2, 3]);
}
