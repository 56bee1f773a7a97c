use understory::inspector::{
    adjacent_index, find_parent_index, find_visible_index, prune_selection_to_visible, selection_range, Direction,
    InspectorFocus, SelectionCommand,
};

const ROOT: u32 = 0;
const CHILD_A: u32 = 1;
const CHILD_B: u32 = 2;
const TAIL: u32 = 3;

/// Rows shown while the root is collapsed.
const COLLAPSED: [u32; 2] = [ROOT, TAIL];
/// Rows shown while the root is expanded.
const EXPANDED: [u32; 4] = [ROOT, CHILD_A, CHILD_B, TAIL];

fn parent_of(key: u32) -> Option<u32> {
    match key {
        CHILD_A | CHILD_B => Some(ROOT),
        _ => None,
    }
}

fn replaced(cmd: &SelectionCommand<u32>) -> Vec<u32> {
    match cmd {
        SelectionCommand::ReplaceWith(keys) => keys.clone(),
        SelectionCommand::SelectOnly(_) => panic!("expected a range replacement"),
    }
}

#[test]
fn starts_unfocused_and_collapsed() {
    let focus = InspectorFocus::<u32>::new();
    assert!(focus.focus().is_none());
    assert_eq!(COLLAPSED.to_vec(), vec![ROOT, TAIL]);
}

#[test]
fn focus_next_follows_visible_row_order() {
    let mut focus = InspectorFocus::new();
    assert!(focus.focus_next(&COLLAPSED));
    assert_eq!(focus.focus(), Some(&ROOT));

    // Expanding the root shows its children; the focus stays on the root.
    focus.reconcile(&EXPANDED, parent_of(ROOT));
    assert_eq!(focus.focus(), Some(&ROOT));
    assert!(focus.focus_next(&EXPANDED));
    assert_eq!(focus.focus(), Some(&CHILD_A));

    assert!(focus.focus_next(&EXPANDED));
    assert_eq!(focus.focus(), Some(&CHILD_B));
}

#[test]
fn collapse_reconciles_focus_to_parent() {
    let mut focus = InspectorFocus::new();
    let _ = focus.set_focus(&EXPANDED, Some(CHILD_B));
    let selection = [ROOT, CHILD_A, CHILD_B];

    focus.reconcile(&COLLAPSED, parent_of(CHILD_B));
    assert_eq!(focus.focus(), Some(&ROOT));
    assert_eq!(focus.focus_index(), Some(0));
    assert_eq!(prune_selection_to_visible(&selection, &COLLAPSED), vec![ROOT]);
}

#[test]
fn extend_selection_next_uses_visible_anchor_range() {
    let mut focus = InspectorFocus::new();
    assert!(focus.focus_first(&EXPANDED));
    // Selecting only the focused row makes it the anchor.
    let anchor = Some(ROOT);

    let (changed, cmds) = focus.extend_selection(&EXPANDED, Direction::Forward, anchor);
    assert!(changed);
    assert_eq!(focus.focus(), Some(&CHILD_A));
    assert_eq!(cmds.len(), 1);
    assert_eq!(replaced(&cmds[0]), vec![ROOT, CHILD_A]);

    let (changed, cmds) = focus.extend_selection(&EXPANDED, Direction::Forward, anchor);
    assert!(changed);
    assert_eq!(cmds.len(), 1);
    assert_eq!(replaced(&cmds[0]), vec![ROOT, CHILD_A, CHILD_B]);
}

#[test]
fn extend_selection_without_focus_selects_first_or_last_row() {
    let mut focus = InspectorFocus::new();
    let (changed, cmds) = focus.extend_selection(&EXPANDED, Direction::Backward, None);
    assert!(changed);
    assert_eq!(focus.focus(), Some(&TAIL));
    assert!(matches!(cmds.as_slice(), [SelectionCommand::SelectOnly(TAIL)]));

    let mut focus = InspectorFocus::new();
    let (changed, cmds) = focus.extend_selection(&EXPANDED, Direction::Forward, None);
    assert!(changed);
    assert_eq!(focus.focus(), Some(&ROOT));
    assert!(matches!(cmds.as_slice(), [SelectionCommand::SelectOnly(ROOT)]));

    let mut focus = InspectorFocus::<u32>::new();
    let (changed, cmds) = focus.extend_selection(&[], Direction::Forward, None);
    assert!(!changed);
    assert!(cmds.is_empty());
}

#[test]
fn extend_selection_without_anchor_anchors_at_focus() {
    let mut focus = InspectorFocus::new();
    assert!(focus.set_focus(&EXPANDED, Some(CHILD_B)));
    let (changed, cmds) = focus.extend_selection(&EXPANDED, Direction::Backward, None);
    assert!(changed);
    assert_eq!(focus.focus(), Some(&CHILD_A));
    assert_eq!(cmds.len(), 2);
    assert!(matches!(cmds[0], SelectionCommand::SelectOnly(CHILD_B)));
    assert_eq!(replaced(&cmds[1]), vec![CHILD_A, CHILD_B]);
}

#[test]
fn extend_selection_stops_at_the_last_row() {
    let mut focus = InspectorFocus::new();
    assert!(focus.set_focus(&EXPANDED, Some(TAIL)));
    let (changed, cmds) = focus.extend_selection(&EXPANDED, Direction::Forward, Some(ROOT));
    assert!(!changed);
    assert!(cmds.is_empty());
    assert_eq!(focus.focus(), Some(&TAIL));
}

#[test]
fn extend_selection_with_hidden_anchor_selects_target_only() {
    let mut focus = InspectorFocus::new();
    assert!(focus.focus_first(&COLLAPSED));
    let (changed, cmds) = focus.extend_selection(&COLLAPSED, Direction::Forward, Some(CHILD_A));
    assert!(changed);
    assert!(matches!(cmds.as_slice(), [SelectionCommand::SelectOnly(TAIL)]));
}

#[test]
fn set_focus_requires_a_visible_key() {
    let mut focus = InspectorFocus::new();
    assert!(!focus.set_focus(&COLLAPSED, Some(CHILD_A)));
    assert!(focus.focus().is_none());
    assert!(focus.set_focus(&COLLAPSED, Some(TAIL)));
    assert_eq!(focus.focus_index(), Some(1));
    assert!(!focus.set_focus(&COLLAPSED, Some(TAIL)));
    assert!(focus.set_focus(&COLLAPSED, None));
    assert!(focus.focus().is_none());
    assert_eq!(focus.focus_index(), None);
    assert!(!focus.set_focus(&COLLAPSED, None));
}

#[test]
fn step_focus_stops_at_either_end() {
    let mut focus = InspectorFocus::new();
    assert!(focus.focus_prev(&EXPANDED));
    assert_eq!(focus.focus(), Some(&TAIL));
    assert!(!focus.focus_next(&EXPANDED));
    assert!(focus.focus_first(&EXPANDED));
    assert!(!focus.focus_first(&EXPANDED));
    assert!(!focus.focus_prev(&EXPANDED));
    assert_eq!(focus.focus_index(), Some(0));
}

#[test]
fn reconcile_follows_moved_key_and_falls_back_to_first_row() {
    let mut focus = InspectorFocus::new();
    assert!(focus.set_focus(&COLLAPSED, Some(TAIL)));
    focus.reconcile(&EXPANDED, parent_of(TAIL));
    assert_eq!(focus.focus(), Some(&TAIL));
    assert_eq!(focus.focus_index(), Some(3));

    focus.reconcile(&[ROOT, CHILD_A], parent_of(TAIL));
    assert_eq!(focus.focus(), Some(&ROOT));
    assert_eq!(focus.focus_index(), Some(0));

    focus.reconcile(&[], None);
    assert!(focus.focus().is_none());
    assert_eq!(focus.focus_index(), None);
}

#[test]
fn visible_index_search_prefers_hint_then_later_rows() {
    let rows = [5u32, 7, 5, 9, 5];
    assert_eq!(find_visible_index(&rows, &5, None), Some(0));
    assert_eq!(find_visible_index(&rows, &5, Some(2)), Some(2));
    assert_eq!(find_visible_index(&rows, &5, Some(3)), Some(4));
    assert_eq!(find_visible_index(&rows, &7, Some(3)), Some(1));
    assert_eq!(find_visible_index(&rows, &7, Some(99)), Some(1));
    assert_eq!(find_visible_index(&rows, &8, Some(1)), None);
}

#[test]
fn parent_search_looks_back_from_the_focus_first() {
    let rows = [5u32, 7, 5, 9, 5];
    assert_eq!(find_parent_index(&rows, &5, Some(4)), Some(2));
    assert_eq!(find_parent_index(&rows, &5, Some(2)), Some(0));
    assert_eq!(find_parent_index(&rows, &9, Some(1)), Some(3));
    assert_eq!(find_parent_index(&rows, &5, None), Some(0));
    assert_eq!(find_parent_index(&rows, &8, Some(3)), None);
}

#[test]
fn adjacent_index_moves_one_row() {
    assert_eq!(adjacent_index(0, None, Direction::Forward), None);
    assert_eq!(adjacent_index(4, None, Direction::Forward), Some(0));
    assert_eq!(adjacent_index(4, None, Direction::Backward), Some(3));
    assert_eq!(adjacent_index(4, Some(1), Direction::Forward), Some(2));
    assert_eq!(adjacent_index(4, Some(3), Direction::Forward), None);
    assert_eq!(adjacent_index(4, Some(1), Direction::Backward), Some(0));
    assert_eq!(adjacent_index(4, Some(0), Direction::Backward), None);
}

#[test]
fn selection_range_runs_between_both_ends() {
    assert_eq!(selection_range(&EXPANDED, 1, 3), vec![CHILD_A, CHILD_B, TAIL]);
    assert_eq!(selection_range(&EXPANDED, 3, 1), vec![CHILD_A, CHILD_B, TAIL]);
    assert_eq!(selection_range(&EXPANDED, 2, 2), vec![CHILD_B]);
}
