use understory::dirty::{Channel, CycleHandling, DirtyTracker, EagerPolicy, LazyPolicy, OneParentRecorder, TraversalScratch};

fn layout() -> Channel {
    Channel::new(0)
}

fn paint() -> Channel {
    Channel::new(1)
}

#[test]
fn basic_workflow() {
    let mut tracker = DirtyTracker::<u32>::new();

    tracker.add_dependency(2, 1, layout()).unwrap();
    tracker.add_dependency(3, 2, layout()).unwrap();

    tracker.mark_with(1, layout(), &EagerPolicy);

    assert!(tracker.is_dirty(1, layout()));
    assert!(tracker.is_dirty(2, layout()));
    assert!(tracker.is_dirty(3, layout()));

    let order = tracker.drain_sorted(layout()).collect_with_completion().0;
    assert_eq!(order, vec![1, 2, 3]);

    assert!(!tracker.has_dirty(layout()));
}

#[test]
fn manual_mark_no_propagation() {
    let mut tracker = DirtyTracker::<u32>::new();

    tracker.add_dependency(2, 1, layout()).unwrap();

    tracker.mark(1, layout());

    assert!(tracker.is_dirty(1, layout()));
    assert!(!tracker.is_dirty(2, layout()));
}

#[test]
fn replace_dependencies_uses_configured_cycle_handling() {
    let mut tracker = DirtyTracker::<u32>::with_cycle_handling(CycleHandling::Error);

    let err = tracker.replace_dependencies(1, layout(), &[1]).unwrap_err();
    assert_eq!(err.from, 1);
    assert_eq!(err.to, 1);
}

#[test]
fn lazy_policy() {
    let mut tracker = DirtyTracker::<u32>::new();

    tracker.add_dependency(2, 1, layout()).unwrap();
    tracker.add_dependency(3, 2, layout()).unwrap();

    tracker.mark_with(1, layout(), &LazyPolicy);

    assert!(tracker.is_dirty(1, layout()));
    assert!(!tracker.is_dirty(2, layout()));
    assert!(!tracker.is_dirty(3, layout()));
}

#[test]
fn tracker_remove_key() {
    let mut tracker = DirtyTracker::<u32>::new();

    tracker.add_dependency(2, 1, layout()).unwrap();
    tracker.mark(1, layout());
    tracker.mark(2, layout());

    tracker.remove_key(2);

    assert!(tracker.graph().dependents(1, layout()).is_empty());
    assert!(!tracker.is_dirty(2, layout()));
    assert!(tracker.is_dirty(1, layout()));
}

#[test]
fn peek_sorted_preserves_state() {
    let mut tracker = DirtyTracker::<u32>::new();

    tracker.add_dependency(2, 1, layout()).unwrap();
    tracker.mark(1, layout());
    tracker.mark(2, layout());

    let order = tracker.peek_sorted(layout()).collect_with_completion().0;
    assert_eq!(order, vec![1, 2]);

    assert!(tracker.is_dirty(1, layout()));
    assert!(tracker.is_dirty(2, layout()));
}

#[test]
fn generation_tracking() {
    let mut tracker = DirtyTracker::<u32>::new();
    let initial = tracker.generation();

    tracker.mark(1, layout());
    assert_eq!(tracker.generation(), initial + 1);

    tracker.mark(2, layout());
    assert_eq!(tracker.generation(), initial + 2);
}

#[test]
fn cycle_handling_modes() {
    let mut tracker = DirtyTracker::<u32>::with_cycle_handling(CycleHandling::Error);

    tracker.add_dependency(2, 1, layout()).unwrap();

    let result = tracker.add_dependency(1, 1, layout());
    assert!(result.is_err());

    tracker.set_cycle_handling(CycleHandling::Ignore);
    let result = tracker.add_dependency(1, 1, layout());
    assert!(result.is_ok());
}

#[test]
fn multiple_channels() {
    let mut tracker = DirtyTracker::<u32>::new();

    tracker.add_dependency(2, 1, layout()).unwrap();
    tracker.add_dependency(2, 1, paint()).unwrap();

    tracker.mark_with(1, layout(), &EagerPolicy);

    assert!(tracker.is_dirty(1, layout()));
    assert!(tracker.is_dirty(2, layout()));
    assert!(!tracker.is_dirty(1, paint()));
    assert!(!tracker.is_dirty(2, paint()));

    tracker.mark_with(1, paint(), &EagerPolicy);

    assert!(tracker.is_dirty(1, paint()));
    assert!(tracker.is_dirty(2, paint()));
}

#[test]
fn clear_specific_channel() {
    let mut tracker = DirtyTracker::<u32>::new();

    tracker.mark(1, layout());
    tracker.mark(1, paint());

    tracker.clear(layout());

    assert!(!tracker.has_dirty(layout()));
    assert!(tracker.has_dirty(paint()));
}

#[test]
fn clear_all() {
    let mut tracker = DirtyTracker::<u32>::new();

    tracker.mark(1, layout());
    tracker.mark(1, paint());

    tracker.clear_all();

    assert!(tracker.is_clean());
}

#[test]
fn within_keys_does_not_clear_outside_roots() {
    let mut t = DirtyTracker::<u32>::new();
    t.mark(1, layout());
    t.mark(2, layout());

    let subset = [1];
    let order = t.drain(layout()).dirty_only().within_keys(&subset).run().collect_with_completion().0;
    assert_eq!(order, vec![1]);
    assert!(t.is_dirty(2, layout()));
}

#[test]
fn within_dependencies_of_filters_dirty_only() {
    let mut t = DirtyTracker::<u32>::with_cycle_handling(CycleHandling::Error);
    t.add_dependency(2, 1, layout()).unwrap();
    t.add_dependency(3, 2, layout()).unwrap();

    t.mark(1, layout());
    t.mark(2, layout());
    t.mark(3, layout());
    t.mark(9, layout());

    let order = t
        .drain(layout())
        .dirty_only()
        .within_dependencies_of(3)
        .deterministic()
        .run()
        .collect_with_completion()
        .0;
    assert_eq!(order, vec![1, 2, 3]);
    assert!(t.is_dirty(9, layout()));
}

#[test]
fn affected_with_trace_records_one_plausible_path() {
    let mut t = DirtyTracker::<u32>::with_cycle_handling(CycleHandling::Error);
    t.add_dependency(2, 1, layout()).unwrap();
    t.add_dependency(3, 2, layout()).unwrap();

    t.mark(1, layout());

    let mut scratch = TraversalScratch::new();
    let mut rec = OneParentRecorder::new();
    let order = t.drain(layout()).affected().trace(&mut scratch, &mut rec).run().collect_with_completion().0;

    assert_eq!(order, vec![1, 2, 3]);
    assert_eq!(rec.explain_path(3, layout()).unwrap(), vec![1, 2, 3]);
}

#[test]
fn deterministic_diamond_is_total() {
    let mut t = DirtyTracker::<u32>::with_cycle_handling(CycleHandling::Error);
    t.add_dependency(2, 1, layout()).unwrap();
    t.add_dependency(3, 1, layout()).unwrap();
    t.add_dependency(4, 2, layout()).unwrap();
    t.add_dependency(4, 3, layout()).unwrap();

    t.mark(1, layout());
    t.mark(2, layout());
    t.mark(3, layout());
    t.mark(4, layout());

    let order = t.drain(layout()).dirty_only().deterministic().run().collect_with_completion().0;
    assert_eq!(order, vec![1, 2, 3, 4]);
}
