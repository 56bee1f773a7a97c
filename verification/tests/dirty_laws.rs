use understory::dirty::{
    drain_affected_sorted_deterministic, drain_sorted_deterministic, Channel, ChannelSet, CycleHandling, DirtyCause,
    DirtyGraph, DirtySet, DirtyTrace, DirtyTracker, DrainCompletion, DrainSorted, LazyPolicy, OneParentRecorder,
};

fn layout() -> Channel {
    Channel::new(0)
}

#[test]
fn add_then_remove_dependency_restores_lists() {
    let mut graph = DirtyGraph::<u32>::new();
    graph.add_dependency(5, 1, layout(), CycleHandling::Error).unwrap();
    graph.add_dependency(5, 2, layout(), CycleHandling::Error).unwrap();
    let before = graph.dependencies(5, layout());
    let before_rev = graph.dependents(3, layout());
    assert_eq!(graph.add_dependency(5, 3, layout(), CycleHandling::Error), Ok(true));
    assert!(graph.remove_dependency(5, 3, layout()));
    assert_eq!(graph.dependencies(5, layout()), before);
    assert_eq!(graph.dependents(3, layout()), before_rev);
}

#[test]
fn existing_edge_is_not_added_twice() {
    let mut graph = DirtyGraph::<u32>::new();
    assert_eq!(graph.add_dependency(2, 1, layout(), CycleHandling::Error), Ok(true));
    assert_eq!(graph.add_dependency(2, 1, layout(), CycleHandling::Error), Ok(false));
    assert_eq!(graph.in_degree(2, layout()), 1);
}

#[test]
fn refused_cycles_keep_the_drain_complete() {
    let mut graph = DirtyGraph::<u32>::new();
    graph.add_dependency(2, 1, layout(), CycleHandling::Ignore).unwrap();
    graph.add_dependency(3, 2, layout(), CycleHandling::Ignore).unwrap();
    assert_eq!(graph.add_dependency(1, 3, layout(), CycleHandling::Ignore), Ok(false));
    let keys: Vec<u32> = vec![3, 1, 2];
    let (order, completion) = DrainSorted::from_iter_with_capacity(keys, 3, &graph, layout()).collect_with_completion();
    assert_eq!(order, vec![1, 2, 3]);
    assert_eq!(completion, DrainCompletion::Complete);
}

#[test]
fn deterministic_drains_yield_smallest_ready_key_first() {
    let mut graph = DirtyGraph::<u32>::new();
    graph.add_dependency(9, 5, layout(), CycleHandling::Error).unwrap();
    let mut dirty = DirtySet::new();
    for k in [9u32, 7, 5, 8] {
        dirty.mark(k, layout());
    }
    let order = drain_sorted_deterministic(&mut dirty, &graph, layout()).collect_with_completion().0;
    assert_eq!(order, vec![5, 7, 8, 9]);

    let mut dirty = DirtySet::new();
    dirty.mark(5u32, layout());
    dirty.mark(1, layout());
    let order = drain_affected_sorted_deterministic(&mut dirty, &graph, layout()).collect_with_completion().0;
    assert_eq!(order, vec![1, 5, 9]);
}

#[test]
fn mark_then_take_restores_channel() {
    let mut dirty = DirtySet::new();
    dirty.mark(1u32, layout());
    let before = dirty.iter(layout());
    let generation = dirty.generation();
    assert!(dirty.mark(2, layout()));
    assert!(!dirty.mark(2, layout()));
    assert_eq!(dirty.generation(), generation + 1);
    assert!(dirty.take(2, layout()));
    assert_eq!(dirty.iter(layout()), before);
    assert!(!dirty.take(2, layout()));
}

#[test]
fn channel_sets_behave_as_sets() {
    let mut set = ChannelSet::empty();
    assert!(set.is_empty());
    set.insert(Channel::new(63));
    set.insert(Channel::new(0));
    assert!(set.contains(Channel::new(63)));
    assert!(set.contains(Channel::new(0)));
    assert!(!set.contains(Channel::new(1)));
    set.remove(Channel::new(63));
    assert!(!set.contains(Channel::new(63)));
    let union = set.union(ChannelSet::single(Channel::new(5)));
    assert!(union.contains(Channel::new(0)));
    assert!(union.contains(Channel::new(5)));
    assert_eq!(Channel::new(5).index(), 5);
}

#[test]
fn recorder_keeps_first_cause() {
    let mut rec = OneParentRecorder::new();
    rec.root(1u32, layout(), true);
    rec.caused_by(2, 1, layout(), true);
    rec.caused_by(2, 7, layout(), false);
    assert_eq!(rec.cause(2, layout()), Some(DirtyCause::Because(1)));
    assert_eq!(rec.cause(1, layout()), Some(DirtyCause::Root));
    assert_eq!(rec.cause(3, layout()), None);
    assert_eq!(rec.explain_path(2, layout()), Some(vec![1, 2]));
    rec.clear();
    assert_eq!(rec.cause(2, layout()), None);
}

#[test]
fn tracker_peek_sorted_deterministic_keeps_marks() {
    let mut tracker = DirtyTracker::<u32>::new();
    tracker.add_dependency(4, 3, layout()).unwrap();
    tracker.mark(4, layout());
    tracker.mark(3, layout());
    tracker.mark(1, layout());
    let order = tracker.peek_sorted_deterministic(layout()).collect_with_completion().0;
    assert_eq!(order, vec![1, 3, 4]);
    assert!(tracker.is_dirty(4, layout()));
    let order = tracker.drain_affected_sorted(layout()).collect_with_completion().0;
    assert_eq!(order.len(), 3);
    assert!(tracker.is_clean());
}

#[test]
fn transitive_dependents_visit_diamond_once() {
    let mut graph = DirtyGraph::<u32>::new();
    graph.add_dependency(2, 1, layout(), CycleHandling::Error).unwrap();
    graph.add_dependency(3, 1, layout(), CycleHandling::Error).unwrap();
    graph.add_dependency(4, 2, layout(), CycleHandling::Error).unwrap();
    graph.add_dependency(4, 3, layout(), CycleHandling::Error).unwrap();
    let mut deps = graph.transitive_dependents(1, layout());
    deps.sort();
    assert_eq!(deps, vec![2, 3, 4]);
}

#[test]
fn explanation_fails_without_a_root() {
    let mut rec = OneParentRecorder::new();
    rec.caused_by(1u32, 2, layout(), true);
    rec.caused_by(2, 1, layout(), true);
    rec.caused_by(3, 9, layout(), true);
    assert_eq!(rec.explain_path(1, layout()), None);
    assert_eq!(rec.explain_path(3, layout()), None);
    assert_eq!(rec.explain_path(4, layout()), None);
    rec.root(9, layout(), true);
    assert_eq!(rec.explain_path(3, layout()), Some(vec![9, 3]));
}

#[test]
fn mark_with_adds_marks_only() {
    let mut tracker = DirtyTracker::<u32>::new();
    tracker.mark(4, layout());
    tracker.mark_with(5, layout(), &LazyPolicy);
    assert!(tracker.is_dirty(4, layout()));
    assert!(tracker.is_dirty(5, layout()));
}

#[test]
fn mark_with_follows_the_policy() {
    let paint = Channel::new(1);
    let mut eager = DirtyTracker::<u32>::new();
    eager.add_dependency(2, 1, layout()).unwrap();
    eager.add_dependency(2, 1, paint).unwrap();
    let mut lazy = eager.clone();
    eager.mark_with(1, layout(), &understory::dirty::EagerPolicy);
    assert!(eager.is_dirty(1, layout()) && eager.is_dirty(2, layout()));
    assert!(!eager.is_dirty(1, paint) && !eager.is_dirty(2, paint));
    lazy.mark_with(1, layout(), &LazyPolicy);
    assert!(lazy.is_dirty(1, layout()) && !lazy.is_dirty(2, layout()));
}
