use understory::dirty::{Channel, CycleHandling, DirtyGraph, DirtySet, EagerPolicy, LazyPolicy, PropagationPolicy};

fn layout() -> Channel {
    Channel::new(0)
}

fn setup_chain_graph() -> DirtyGraph<u32> {
    let mut graph = DirtyGraph::<u32>::new();
    graph.add_dependency(2, 1, layout(), CycleHandling::Error).unwrap();
    graph.add_dependency(3, 2, layout(), CycleHandling::Error).unwrap();
    graph.add_dependency(4, 3, layout(), CycleHandling::Error).unwrap();
    graph
}

#[test]
fn eager_policy_marks_all_dependents() {
    let graph = setup_chain_graph();
    let mut dirty = DirtySet::new();
    let eager = EagerPolicy;

    eager.propagate(1, layout(), &graph, &mut dirty);

    assert!(dirty.is_dirty(1, layout()));
    assert!(dirty.is_dirty(2, layout()));
    assert!(dirty.is_dirty(3, layout()));
    assert!(dirty.is_dirty(4, layout()));
}

#[test]
fn eager_policy_from_middle() {
    let graph = setup_chain_graph();
    let mut dirty = DirtySet::new();
    let eager = EagerPolicy;

    eager.propagate(2, layout(), &graph, &mut dirty);

    assert!(!dirty.is_dirty(1, layout()));
    assert!(dirty.is_dirty(2, layout()));
    assert!(dirty.is_dirty(3, layout()));
    assert!(dirty.is_dirty(4, layout()));
}

#[test]
fn lazy_policy_only_marks_key() {
    let graph = setup_chain_graph();
    let mut dirty = DirtySet::new();
    let lazy = LazyPolicy;

    lazy.propagate(1, layout(), &graph, &mut dirty);

    assert!(dirty.is_dirty(1, layout()));
    assert!(!dirty.is_dirty(2, layout()));
    assert!(!dirty.is_dirty(3, layout()));
    assert!(!dirty.is_dirty(4, layout()));
}

#[test]
fn policy_through_reference() {
    let graph = setup_chain_graph();
    let mut dirty = DirtySet::new();
    let eager = EagerPolicy;
    let policy: &dyn PropagationPolicy<u32> = &eager;

    policy.propagate(1, layout(), &graph, &mut dirty);

    let dirty_keys = dirty.iter(layout());
    assert_eq!(dirty_keys.len(), 4);
}

#[test]
fn eager_handles_diamond() {
    let mut graph = DirtyGraph::<u32>::new();
    graph.add_dependency(2, 1, layout(), CycleHandling::Error).unwrap();
    graph.add_dependency(3, 1, layout(), CycleHandling::Error).unwrap();
    graph.add_dependency(4, 2, layout(), CycleHandling::Error).unwrap();
    graph.add_dependency(4, 3, layout(), CycleHandling::Error).unwrap();

    let mut dirty = DirtySet::new();
    EagerPolicy.propagate(1, layout(), &graph, &mut dirty);

    assert!(dirty.is_dirty(1, layout()));
    assert!(dirty.is_dirty(2, layout()));
    assert!(dirty.is_dirty(3, layout()));
    assert!(dirty.is_dirty(4, layout()));
    assert_eq!(dirty.len(layout()), 4);
}
