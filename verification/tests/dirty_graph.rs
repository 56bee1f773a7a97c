use understory::dirty::{Channel, CycleHandling, DirtyGraph};

fn layout() -> Channel {
    Channel::new(0)
}

fn paint() -> Channel {
    Channel::new(1)
}

fn a11y() -> Channel {
    Channel::new(2)
}

#[test]
fn add_and_query_dependencies() {
    let mut graph = DirtyGraph::<u32>::new();

    graph.add_dependency(2, 1, layout(), CycleHandling::Error).unwrap();
    graph.add_dependency(3, 2, layout(), CycleHandling::Error).unwrap();

    assert!(graph.dependencies(2, layout()).iter().any(|&k| k == 1));
    assert!(graph.dependents(1, layout()).iter().any(|&k| k == 2));
    assert!(graph.dependents(2, layout()).iter().any(|&k| k == 3));
}

#[test]
fn replace_dependencies_updates_in_place() {
    let mut graph = DirtyGraph::<u32>::new();
    graph.add_dependency(10, 1, layout(), CycleHandling::Error).unwrap();
    graph.add_dependency(10, 2, layout(), CycleHandling::Error).unwrap();

    let changed = graph.replace_dependencies(10, layout(), &[3, 4], CycleHandling::Error).unwrap();
    assert!(changed);

    let deps = graph.dependencies(10, layout());
    assert_eq!(deps.len(), 2);
    assert!(deps.contains(&3));
    assert!(deps.contains(&4));
    assert!(!deps.contains(&1));
    assert!(!deps.contains(&2));
}

#[test]
fn replace_dependencies_rolls_back_on_cycle_error() {
    let mut graph = DirtyGraph::<u32>::new();
    graph.add_dependency(2, 1, layout(), CycleHandling::Error).unwrap();
    graph.add_dependency(1, 3, layout(), CycleHandling::Error).unwrap();

    let err = graph.replace_dependencies(1, layout(), &[2], CycleHandling::Error).unwrap_err();
    assert_eq!(err.from, 1);
    assert_eq!(err.to, 2);

    let deps = graph.dependencies(1, layout());
    assert_eq!(deps, vec![3]);
    assert!(!graph.dependencies(1, layout()).iter().any(|&k| k == 2));

    assert!(graph.dependencies(2, layout()).iter().any(|&k| k == 1));
}

#[test]
fn replace_dependencies_noop_when_set_unchanged_returns_false() {
    let mut graph = DirtyGraph::<u32>::new();
    graph.add_dependency(10, 1, layout(), CycleHandling::Error).unwrap();
    graph.add_dependency(10, 2, layout(), CycleHandling::Error).unwrap();

    let changed = graph.replace_dependencies(10, layout(), &[2, 1, 2], CycleHandling::Error).unwrap();
    assert!(!changed);

    let deps = graph.dependencies(10, layout());
    assert_eq!(deps.len(), 2);
    assert!(deps.contains(&1));
    assert!(deps.contains(&2));
}

#[test]
fn replace_dependencies_rolls_back_mixed_delta_on_cycle_error() {
    let mut graph = DirtyGraph::<u32>::new();
    graph.add_dependency(2, 1, layout(), CycleHandling::Error).unwrap();
    graph.add_dependency(1, 3, layout(), CycleHandling::Error).unwrap();
    graph.add_dependency(1, 4, layout(), CycleHandling::Error).unwrap();

    let err = graph.replace_dependencies(1, layout(), &[4, 2], CycleHandling::Error).unwrap_err();
    assert_eq!(err.from, 1);
    assert_eq!(err.to, 2);

    let deps = graph.dependencies(1, layout());
    assert_eq!(deps.len(), 2);
    assert!(deps.contains(&3));
    assert!(deps.contains(&4));
    assert!(!deps.contains(&2));
}

#[test]
fn replace_dependencies_is_channel_scoped() {
    let mut graph = DirtyGraph::<u32>::new();
    graph.add_dependency(7, 1, layout(), CycleHandling::Error).unwrap();
    graph.add_dependency(7, 9, paint(), CycleHandling::Error).unwrap();

    graph.replace_dependencies(7, layout(), &[2, 3], CycleHandling::Error).unwrap();

    let layout_deps = graph.dependencies(7, layout());
    assert_eq!(layout_deps.len(), 2);
    assert!(layout_deps.contains(&2));
    assert!(layout_deps.contains(&3));
    assert!(!layout_deps.contains(&1));

    let paint_deps = graph.dependencies(7, paint());
    assert_eq!(paint_deps, vec![9]);
}

#[test]
fn cycle_detection_error() {
    let mut graph = DirtyGraph::<u32>::new();

    graph.add_dependency(2, 1, layout(), CycleHandling::Error).unwrap();
    graph.add_dependency(3, 2, layout(), CycleHandling::Error).unwrap();

    let result = graph.add_dependency(1, 3, layout(), CycleHandling::Error);
    assert!(result.is_err());
    let err = result.unwrap_err();
    assert_eq!(err.from, 1);
    assert_eq!(err.to, 3);
}

#[test]
fn self_dependency_is_cycle() {
    let mut graph = DirtyGraph::<u32>::new();

    let result = graph.add_dependency(1, 1, layout(), CycleHandling::Error);
    assert!(result.is_err());
}

#[test]
fn cycle_ignore() {
    let mut graph = DirtyGraph::<u32>::new();

    graph.add_dependency(2, 1, layout(), CycleHandling::Ignore).unwrap();

    let result = graph.add_dependency(1, 1, layout(), CycleHandling::Ignore);
    assert!(result.is_ok());
    assert!(!result.unwrap());
}

#[test]
fn cycle_allow() {
    let mut graph = DirtyGraph::<u32>::new();

    graph.add_dependency(2, 1, layout(), CycleHandling::Allow).unwrap();
    graph.add_dependency(3, 2, layout(), CycleHandling::Allow).unwrap();

    let result = graph.add_dependency(1, 3, layout(), CycleHandling::Allow);
    assert!(result.is_ok());
    assert!(result.unwrap());
}

#[test]
fn remove_dependency() {
    let mut graph = DirtyGraph::<u32>::new();

    graph.add_dependency(2, 1, layout(), CycleHandling::Error).unwrap();
    assert!(graph.dependencies(2, layout()).iter().any(|&k| k == 1));

    let removed = graph.remove_dependency(2, 1, layout());
    assert!(removed);
    assert!(!graph.dependencies(2, layout()).iter().any(|&k| k == 1));

    assert!(!graph.remove_dependency(2, 1, layout()));
}

#[test]
fn graph_remove_key() {
    let mut graph = DirtyGraph::<u32>::new();

    graph.add_dependency(2, 1, layout(), CycleHandling::Error).unwrap();
    graph.add_dependency(3, 2, layout(), CycleHandling::Error).unwrap();
    graph.add_dependency(2, 1, paint(), CycleHandling::Error).unwrap();

    graph.remove_key(2);

    assert!(graph.dependencies(2, layout()).is_empty());
    assert!(graph.dependents(1, layout()).is_empty());
    assert!(graph.dependencies(3, layout()).is_empty());
}

#[test]
fn transitive_dependents() {
    let mut graph = DirtyGraph::<u32>::new();

    graph.add_dependency(2, 1, layout(), CycleHandling::Error).unwrap();
    graph.add_dependency(3, 2, layout(), CycleHandling::Error).unwrap();
    graph.add_dependency(4, 2, layout(), CycleHandling::Error).unwrap();

    let transitive = graph.transitive_dependents(1, layout());
    assert_eq!(transitive.len(), 3);
    assert!(transitive.contains(&2));
    assert!(transitive.contains(&3));
    assert!(transitive.contains(&4));
}

#[test]
fn channel_independence() {
    let mut graph = DirtyGraph::<u32>::new();

    graph.add_dependency(2, 1, layout(), CycleHandling::Error).unwrap();

    assert!(graph.has_dependencies(2, layout()));
    assert!(!graph.has_dependencies(2, paint()));
    assert!(graph.has_dependents(1, layout()));
    assert!(!graph.has_dependents(1, paint()));
}

#[test]
fn in_out_degree() {
    let mut graph = DirtyGraph::<u32>::new();

    graph.add_dependency(3, 1, layout(), CycleHandling::Error).unwrap();
    graph.add_dependency(3, 2, layout(), CycleHandling::Error).unwrap();

    assert_eq!(graph.in_degree(3, layout()), 2);
    assert_eq!(graph.out_degree(1, layout()), 1);
}

#[test]
fn dependency_channels() {
    let mut graph = DirtyGraph::<u32>::new();

    graph.add_dependency(2, 1, layout(), CycleHandling::Error).unwrap();
    graph.add_dependency(2, 1, paint(), CycleHandling::Error).unwrap();

    let channels = graph.dependency_channels(2);
    assert!(channels.contains(layout()));
    assert!(channels.contains(paint()));
    assert!(!channels.contains(a11y()));
}

#[test]
fn keys_and_keys_vec_are_unique() {
    let mut graph = DirtyGraph::<u32>::new();
    graph.add_dependency(2, 1, layout(), CycleHandling::Error).unwrap();

    let keys = graph.keys();
    assert_eq!(keys.len(), 2);
    assert!(keys.contains(&1));
    assert!(keys.contains(&2));

    let keys_vec = graph.keys_vec();
    assert_eq!(keys_vec.len(), 2);
    assert!(keys_vec.contains(&1));
    assert!(keys_vec.contains(&2));
}
