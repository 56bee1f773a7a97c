//! Focus and selection decisions of a hierarchy inspector, over the keys of
//! the rows an outline currently shows.
use vstd::prelude::*;

use crate::dirty::key::Key;

verus! {

/// Direction of a focus or selection step through the visible rows.
#[derive(Clone, Copy, Debug, PartialEq, Eq, Structural)]
pub enum Direction {
    /// Towards later rows.
    Forward,
    /// Towards earlier rows.
    Backward,
}

/// `i` is the first index at or after `lo` where `rows` holds `key`.
pub open spec fn is_first_from<K>(rows: Seq<K>, key: K, lo: int, i: int) -> bool {
    &&& lo <= i < rows.len()
    &&& rows[i] == key
    &&& forall|j: int| lo <= j < i ==> rows[j] != key
}

/// `i` is the row a search for `key` settles on: the hinted row if it holds
/// `key`, else the first later row holding it, else the first row holding
/// it; without a hint, the first row holding it.
pub open spec fn hinted_index<K>(rows: Seq<K>, key: K, hint: Option<usize>, i: int) -> bool {
    match hint {
        None => is_first_from(rows, key, 0, i),
        Some(h) => if h < rows.len() && rows[h as int] == key {
            i == h
        } else if exists|j: int| h < j < rows.len() && rows[j] == key {
            is_first_from(rows, key, h + 1, i)
        } else {
            is_first_from(rows, key, 0, i)
        },
    }
}

/// `i` is the row a search for a parent settles on: the nearest row before
/// the hinted one holding `parent`, else the first row holding it; without a
/// hint, the first row holding it.
pub open spec fn parent_index<K>(rows: Seq<K>, parent: K, hint: Option<usize>, i: int) -> bool {
    match hint {
        None => is_first_from(rows, parent, 0, i),
        Some(h) => {
            let start = if h < rows.len() { h as int } else { rows.len() as int };
            if exists|j: int| 0 <= j < start && rows[j] == parent {
                &&& 0 <= i < start
                &&& rows[i] == parent
                &&& forall|j: int| i < j < start ==> rows[j] != parent
            } else {
                is_first_from(rows, parent, 0, i)
            }
        },
    }
}

/// The row a step in `direction` lands on among `len` rows, from the row
/// `focus_index` (or from outside the rows when nothing is focused).
pub open spec fn adjacent(len: usize, focus_index: Option<usize>, direction: Direction) -> Option<usize> {
    if len == 0 {
        None
    } else {
        match direction {
            Direction::Forward => match focus_index {
                Some(i) => if i + 1 < len {
                    Some((i + 1) as usize)
                } else {
                    None
                },
                None => Some(0),
            },
            Direction::Backward => match focus_index {
                Some(i) => if i > 0 {
                    Some((i - 1) as usize)
                } else {
                    None
                },
                None => Some((len - 1) as usize),
            },
        }
    }
}

/// The keys of the rows from `a` to `b`, both included, top to bottom.
pub open spec fn range_keys<K>(rows: Seq<K>, a: int, b: int) -> Seq<K> {
    if a <= b {
        rows.subrange(a, b + 1)
    } else {
        rows.subrange(b, a + 1)
    }
}

/// The keys of `selected` that `rows` shows, in their order.
pub open spec fn kept_visible<K>(selected: Seq<K>, rows: Seq<K>) -> Seq<K>
    decreases selected.len(),
{
    if selected.len() == 0 {
        Seq::empty()
    } else {
        let kept = kept_visible(selected.drop_last(), rows);
        if rows.contains(selected.last()) {
            kept.push(selected.last())
        } else {
            kept
        }
    }
}

/// Searches `rows` for `key`: at `hint` first, then after it, then before
/// it; without a hint, from the top.
pub fn find_visible_index<K: Key>(rows: &[K], key: &K, hint: Option<usize>) -> (r: Option<usize>)
    ensures
        r is None <==> !rows@.contains(*key),
        r matches Some(i) ==> hinted_index(rows@, *key, hint, i as int),
{
    match hint {
        Some(h) => {
            if h < rows.len() && rows[h].key_eq(key) {
                return Some(h);
            }
            let mut i: usize = if h < rows.len() {
                h + 1
            } else {
                rows.len()
            };
            while i < rows.len()
                invariant
                    hint == Some(h),
                    h < i <= rows@.len() || (h >= rows@.len() && i == rows@.len()),
                    !(h < rows@.len() && rows@[h as int] == *key),
                    forall|j: int| h < j < i ==> rows@[j] != *key,
                decreases rows.len() - i,
            {
                if rows[i].key_eq(key) {
                    assert(h < i && rows@[i as int] == *key);
                    return Some(i);
                }
                i += 1;
            }
            let end: usize = if h < rows.len() {
                h
            } else {
                rows.len()
            };
            let mut j: usize = 0;
            while j < end
                invariant
                    hint == Some(h),
                    end <= rows@.len(),
                    end == h || end == rows@.len(),
                    j <= end,
                    !(h < rows@.len() && rows@[h as int] == *key),
                    forall|k: int| h < k < rows@.len() ==> rows@[k] != *key,
                    forall|k: int| 0 <= k < j ==> rows@[k] != *key,
                decreases end - j,
            {
                if rows[j].key_eq(key) {
                    return Some(j);
                }
                j += 1;
            }
            proof {
                assert forall|k: int| 0 <= k < rows@.len() implies rows@[k] != *key by {
                    if k == h {
                    } else if k > h {
                    } else {
                        assert(k < end);
                    }
                }
            }
            None
        },
        None => {
            let mut i: usize = 0;
            while i < rows.len()
                invariant
                    hint is None,
                    i <= rows@.len(),
                    forall|k: int| 0 <= k < i ==> rows@[k] != *key,
                decreases rows.len() - i,
            {
                if rows[i].key_eq(key) {
                    return Some(i);
                }
                i += 1;
            }
            None
        },
    }
}

/// Searches `rows` for `parent`: backwards from just before the focused
/// row `focus_index`, then from the top.
pub fn find_parent_index<K: Key>(rows: &[K], parent: &K, focus_index: Option<usize>) -> (r: Option<usize>)
    ensures
        r is None <==> !rows@.contains(*parent),
        r matches Some(i) ==> parent_index(rows@, *parent, focus_index, i as int),
{
    let start: usize = match focus_index {
        Some(hint) => if hint < rows.len() {
            hint
        } else {
            rows.len()
        },
        None => 0,
    };
    let mut k: usize = start;
    while k > 0
        invariant
            k <= start <= rows@.len(),
            start == match focus_index {
                Some(h) => if h < rows@.len() {
                    h
                } else {
                    rows@.len() as usize
                },
                None => 0usize,
            },
            forall|j: int| k <= j < start ==> rows@[j] != *parent,
        decreases k,
    {
        let index = k - 1;
        if rows[index].key_eq(parent) {
            return Some(index);
        }
        k = index;
    }
    let mut i: usize = 0;
    while i < rows.len()
        invariant
            i <= rows@.len(),
            start <= rows@.len(),
            start == match focus_index {
                Some(h) => if h < rows@.len() {
                    h
                } else {
                    rows@.len() as usize
                },
                None => 0usize,
            },
            forall|j: int| 0 <= j < start ==> rows@[j] != *parent,
            forall|j: int| 0 <= j < i ==> rows@[j] != *parent,
        decreases rows.len() - i,
    {
        if rows[i].key_eq(parent) {
            return Some(i);
        }
        i += 1;
    }
    None
}

/// The row a step in `direction` lands on among `len` rows, from the row
/// `focus_index`: the next or previous row, none past either end, and the
/// first or last row when nothing is focused.
pub fn adjacent_index(len: usize, focus_index: Option<usize>, direction: Direction) -> (r: Option<usize>)
    ensures
        r == adjacent(len, focus_index, direction),
{
    if len == 0 {
        return None;
    }
    match direction {
        Direction::Forward => match focus_index {
            Some(index) => if index < len - 1 {
                Some(index + 1)
            } else {
                None
            },
            None => Some(0),
        },
        Direction::Backward => match focus_index {
            Some(index) => if index > 0 {
                Some(index - 1)
            } else {
                None
            },
            None => Some(len - 1),
        },
    }
}

/// The keys of the rows from `a` to `b`, both included, top to bottom.
pub fn selection_range<K: Key>(rows: &[K], a: usize, b: usize) -> (r: Vec<K>)
    requires
        a < rows@.len(),
        b < rows@.len(),
    ensures
        r@ == range_keys(rows@, a as int, b as int),
{
    let (start, end) = if a <= b {
        (a, b)
    } else {
        (b, a)
    };
    let mut r: Vec<K> = Vec::new();
    let mut i: usize = start;
    while i <= end
        invariant
            start <= i <= end + 1,
            end < rows@.len(),
            r@ == rows@.subrange(start as int, i as int),
        decreases end + 1 - i,
    {
        r.push(rows[i]);
        i += 1;
    }
    r
}

/// The keys of `selected` that `rows` shows, in their order.
pub fn prune_selection_to_visible<K: Key>(selected: &[K], rows: &[K]) -> (r: Vec<K>)
    ensures
        r@ == kept_visible(selected@, rows@),
{
    let mut r: Vec<K> = Vec::new();
    let mut i: usize = 0;
    while i < selected.len()
        invariant
            i <= selected@.len(),
            r@ == kept_visible(selected@.take(i as int), rows@),
        decreases selected.len() - i,
    {
        let key = selected[i];
        assert(selected@.take(i + 1).drop_last() == selected@.take(i as int));
        assert(selected@.take(i + 1).last() == key);
        if find_visible_index(rows, &key, None).is_some() {
            r.push(key);
        }
        i += 1;
    }
    assert(selected@.take(selected@.len() as int) == selected@);
    r
}

/// A change an inspector asks of its selection.
#[derive(Clone, Debug)]
pub enum SelectionCommand<K> {
    /// Select just this key, making it primary and anchor.
    SelectOnly(K),
    /// Replace the selected keys with these, in order.
    ReplaceWith(Vec<K>),
}

/// `cmd` is the selection change that extends the selection from the anchor
/// `anchor_key` to the row `target`: the rows between the anchor's row (as a
/// search from `hint` finds it) and the target, or the target alone when the
/// anchor is not shown.
pub open spec fn range_command<K>(
    rows: Seq<K>,
    anchor_key: K,
    hint: Option<usize>,
    target: int,
    cmd: SelectionCommand<K>,
) -> bool {
    if rows.contains(anchor_key) {
        exists|a: int|
            #[trigger] hinted_index(rows, anchor_key, hint, a) && (cmd matches SelectionCommand::ReplaceWith(v) && v@
                == range_keys(rows, a, target))
    } else {
        cmd matches SelectionCommand::SelectOnly(k) && k == rows[target]
    }
}

/// Extending the selection in `direction` took the focus `old` to `new`,
/// returned `changed` and asked for the selection changes `cmds`, given the
/// visible `rows` and the selection's `anchor`.
pub open spec fn extended<K: Key>(
    old: InspectorFocus<K>,
    new: InspectorFocus<K>,
    rows: Seq<K>,
    direction: Direction,
    anchor: Option<K>,
    changed: bool,
    cmds: Seq<SelectionCommand<K>>,
) -> bool {
    match old.key_view() {
        None => {
            let target = match direction {
                Direction::Forward => if rows.len() == 0 {
                    None
                } else {
                    Some(0usize)
                },
                Direction::Backward => adjacent(rows.len() as usize, old.index_view(), Direction::Backward),
            };
            match target {
                Some(t) => if t < rows.len() {
                    &&& changed
                    &&& new.key_view() == Some(rows[t as int])
                    &&& new.index_view() == Some(t)
                    &&& cmds.len() == 1
                    &&& cmds[0] matches SelectionCommand::SelectOnly(k) && k == rows[t as int]
                } else {
                    !changed && new == old && cmds.len() == 0
                },
                None => !changed && new == old && cmds.len() == 0,
            }
        },
        Some(cur) => {
            let lead = if anchor is None {
                1int
            } else {
                0int
            };
            let anchor_key = match anchor {
                Some(a) => a,
                None => cur,
            };
            &&& anchor is None ==> cmds.len() >= 1 && (cmds[0] matches SelectionCommand::SelectOnly(k) && k == cur)
            &&& match adjacent(rows.len() as usize, old.index_view(), direction) {
                None => !changed && new == old && cmds.len() == lead,
                Some(t) => {
                    &&& changed
                    &&& new.index_view() == Some(t)
                    &&& new.key_view() == if t < rows.len() {
                        Some(rows[t as int])
                    } else {
                        None
                    }
                    &&& t < rows.len() ==> cmds.len() == lead + 1 && range_command(
                        rows,
                        anchor_key,
                        match old.index_view() {
                            Some(fi) => Some(if fi <= t {
                                fi
                            } else {
                                t
                            }),
                            None => None,
                        },
                        t as int,
                        cmds[lead],
                    )
                    &&& t >= rows.len() ==> cmds.len() == lead
                },
            }
        },
    }
}

/// The focused row of an inspector: its key and, when known, its index among
/// the visible rows.
#[derive(Clone, Copy, Debug)]
pub struct InspectorFocus<K> {
    focus: Option<K>,
    focus_index: Option<usize>,
}

impl<K: Key> InspectorFocus<K> {
    /// The focused key.
    pub closed spec fn key_view(self) -> Option<K> {
        self.focus
    }

    /// The focused row's index.
    pub closed spec fn index_view(self) -> Option<usize> {
        self.focus_index
    }

    /// A key is focused exactly when an index is recorded for it.
    pub open spec fn wf(self) -> bool {
        self.key_view() is Some == self.index_view() is Some
    }

    /// Nothing focused.
    pub fn new() -> (f: Self)
        ensures
            f.wf(),
            f.key_view() is None,
            f.index_view() is None,
    {
        InspectorFocus { focus: None, focus_index: None }
    }

    /// The focused key.
    pub fn focus(&self) -> (r: Option<&K>)
        ensures
            r == match self.key_view() {
                Some(k) => Some(&k),
                None => None::<&K>,
            },
    {
        self.focus.as_ref()
    }

    /// The focused row's index among the visible rows.
    pub fn focus_index(&self) -> (r: Option<usize>)
        ensures
            r == self.index_view(),
    {
        self.focus_index
    }

    /// Brings the focus back onto the visible `rows` after they changed:
    /// keeps it where it still is, follows the focused key to its new row,
    /// falls back to `parent_of_focus` (the model's parent of the focused
    /// key) when that row is visible, and otherwise to the first row.
    pub fn reconcile(&mut self, rows: &[K], parent_of_focus: Option<K>)
        ensures
            final(self).wf(),
            final(self).key_view() matches Some(k) ==> (final(self).index_view() matches Some(i) && i < rows@.len()
                && rows@[i as int] == k),
            rows@.len() == 0 ==> final(self).key_view() is None,
            rows@.len() != 0 ==> match old(self).key_view() {
                None => final(self).key_view() is None,
                Some(cur) => if (old(self).index_view() matches Some(i) && i < rows@.len() && rows@[i as int] == cur) {
                    *final(self) == *old(self)
                } else if rows@.contains(cur) {
                    &&& final(self).key_view() == Some(cur)
                    &&& final(self).index_view() matches Some(i) && hinted_index(
                        rows@,
                        cur,
                        old(self).index_view(),
                        i as int,
                    )
                } else if (parent_of_focus matches Some(p) && rows@.contains(p)) {
                    &&& final(self).key_view() == parent_of_focus
                    &&& final(self).index_view() matches Some(i) && parent_index(
                        rows@,
                        parent_of_focus->0,
                        old(self).index_view(),
                        i as int,
                    )
                } else {
                    &&& final(self).key_view() == Some(rows@[0])
                    &&& final(self).index_view() == Some(0usize)
                },
            },
    {
        if rows.len() == 0 {
            self.focus = None;
            self.focus_index = None;
            return;
        }
        let current = match self.focus {
            Some(current) => current,
            None => {
                self.focus_index = None;
                return;
            },
        };
        if let Some(index) = self.focus_index {
            if index < rows.len() && rows[index].key_eq(&current) {
                return;
            }
        }
        if let Some(index) = find_visible_index(rows, &current, self.focus_index) {
            self.focus_index = Some(index);
            return;
        }
        if let Some(parent) = parent_of_focus {
            if let Some(index) = find_parent_index(rows, &parent, self.focus_index) {
                self.focus = Some(parent);
                self.focus_index = Some(index);
                return;
            }
        }
        self.focus = Some(rows[0]);
        self.focus_index = Some(0);
    }

    /// Focuses `key` if `rows` shows it, or clears the focus for `None`;
    /// returns whether the focused key changed.
    pub fn set_focus(&mut self, rows: &[K], key: Option<K>) -> (changed: bool)
        ensures
            match key {
                Some(k) => if !rows@.contains(k) || old(self).key_view() == Some(k) {
                    !changed && *final(self) == *old(self)
                } else {
                    &&& changed
                    &&& final(self).key_view() == Some(k)
                    &&& final(self).index_view() matches Some(i) && is_first_from(rows@, k, 0, i as int)
                },
                None => {
                    &&& changed == old(self).key_view() is Some
                    &&& final(self).key_view() is None
                    &&& changed ==> final(self).index_view() is None
                    &&& !changed ==> *final(self) == *old(self)
                },
            },
            old(self).wf() ==> final(self).wf(),
    {
        match key {
            Some(key) => {
                let index = match find_visible_index(rows, &key, None) {
                    Some(index) => index,
                    None => return false,
                };
                if let Some(current) = self.focus {
                    if current.key_eq(&key) {
                        return false;
                    }
                }
                self.focus = Some(key);
                self.focus_index = Some(index);
                true
            },
            None => {
                if self.focus.is_none() {
                    return false;
                }
                self.focus = None;
                self.focus_index = None;
                true
            },
        }
    }

    /// Whether the focus is `key` at row `index`.
    fn is_at(&self, key: &K, index: usize) -> (r: bool)
        ensures
            r == (self.key_view() == Some(*key) && self.index_view() == Some(index)),
    {
        match (self.focus, self.focus_index) {
            (Some(current), Some(i)) => current.key_eq(key) && i == index,
            _ => false,
        }
    }

    /// Focuses the first visible row; returns whether the focus changed.
    pub fn focus_first(&mut self, rows: &[K]) -> (changed: bool)
        ensures
            if rows@.len() == 0 || (old(self).key_view() == Some(rows@[0]) && old(self).index_view() == Some(
                0usize,
            )) {
                !changed && *final(self) == *old(self)
            } else {
                changed && final(self).key_view() == Some(rows@[0]) && final(self).index_view() == Some(0usize)
            },
            old(self).wf() ==> final(self).wf(),
    {
        if rows.len() == 0 {
            return false;
        }
        let key = rows[0];
        if self.is_at(&key, 0) {
            return false;
        }
        self.focus = Some(key);
        self.focus_index = Some(0);
        true
    }

    /// Moves the focus one visible row in `direction` (onto the first or last
    /// row when nothing is focused); returns whether the focus changed.
    pub fn step_focus(&mut self, rows: &[K], direction: Direction) -> (changed: bool)
        ensures
            match adjacent(rows@.len() as usize, old(self).index_view(), direction) {
                None => !changed && *final(self) == *old(self),
                Some(i) => if i >= rows@.len() || (old(self).key_view() == Some(rows@[i as int]) && old(self).index_view()
                    == Some(i)) {
                    !changed && *final(self) == *old(self)
                } else {
                    changed && final(self).key_view() == Some(rows@[i as int]) && final(self).index_view() == Some(i)
                },
            },
            old(self).wf() ==> final(self).wf(),
    {
        let index = match adjacent_index(rows.len(), self.focus_index, direction) {
            Some(index) => index,
            None => return false,
        };
        if index >= rows.len() {
            return false;
        }
        let key = rows[index];
        if self.is_at(&key, index) {
            return false;
        }
        self.focus = Some(key);
        self.focus_index = Some(index);
        true
    }

    /// Focuses the previous visible row, or the last one when nothing is
    /// focused; returns whether the focus changed.
    pub fn focus_prev(&mut self, rows: &[K]) -> (changed: bool)
        ensures
            match adjacent(rows@.len() as usize, old(self).index_view(), Direction::Backward) {
                None => !changed && *final(self) == *old(self),
                Some(i) => if i >= rows@.len() || (old(self).key_view() == Some(rows@[i as int]) && old(self).index_view()
                    == Some(i)) {
                    !changed && *final(self) == *old(self)
                } else {
                    changed && final(self).key_view() == Some(rows@[i as int]) && final(self).index_view() == Some(i)
                },
            },
            old(self).wf() ==> final(self).wf(),
    {
        self.step_focus(rows, Direction::Backward)
    }

    /// Focuses the next visible row, or the first one when nothing is
    /// focused; returns whether the focus changed.
    pub fn focus_next(&mut self, rows: &[K]) -> (changed: bool)
        ensures
            match adjacent(rows@.len() as usize, old(self).index_view(), Direction::Forward) {
                None => !changed && *final(self) == *old(self),
                Some(i) => if i >= rows@.len() || (old(self).key_view() == Some(rows@[i as int]) && old(self).index_view()
                    == Some(i)) {
                    !changed && *final(self) == *old(self)
                } else {
                    changed && final(self).key_view() == Some(rows@[i as int]) && final(self).index_view() == Some(i)
                },
            },
            old(self).wf() ==> final(self).wf(),
    {
        self.step_focus(rows, Direction::Forward)
    }
    /// Extends the selection one visible row in `direction`, given the
    /// selection's current `anchor`: with nothing focused, focuses the first
    /// (or last) row and selects it alone; otherwise makes the focus the
    /// anchor if there is none, moves the focus one row and selects the rows
    /// from the anchor to it. Returns whether the focus moved and the
    /// selection changes to apply, in order.
    pub fn extend_selection(&mut self, rows: &[K], direction: Direction, anchor: Option<K>) -> (r: (
        bool,
        Vec<SelectionCommand<K>>,
    ))
        ensures
            extended(*old(self), *final(self), rows@, direction, anchor, r.0, r.1@),
    {
        let mut cmds: Vec<SelectionCommand<K>> = Vec::new();
        let current = match self.focus {
            Some(current) => current,
            None => {
                let changed = match direction {
                    Direction::Forward => self.focus_first(rows),
                    Direction::Backward => self.step_focus(rows, Direction::Backward),
                };
                if changed {
                    let key = rows[self.focus_index.unwrap()];
                    cmds.push(SelectionCommand::SelectOnly(key));
                }
                return (changed, cmds);
            },
        };
        let anchor_key = match anchor {
            Some(a) => a,
            None => {
                cmds.push(SelectionCommand::SelectOnly(current));
                current
            },
        };
        let target = match adjacent_index(rows.len(), self.focus_index, direction) {
            Some(target) => target,
            None => return (false, cmds),
        };
        if target < rows.len() {
            let hint = match self.focus_index {
                Some(fi) => Some(if fi <= target {
                    fi
                } else {
                    target
                }),
                None => None,
            };
            match find_visible_index(rows, &anchor_key, hint) {
                Some(a) => {
                    let keys = selection_range(rows, a, target);
                    cmds.push(SelectionCommand::ReplaceWith(keys));
                    assert(hinted_index(rows@, anchor_key, hint, a as int));
                },
                None => {
                    cmds.push(SelectionCommand::SelectOnly(rows[target]));
                },
            }
            self.focus = Some(rows[target]);
        } else {
            self.focus = None;
        }
        self.focus_index = Some(target);
        (true, cmds)
    }
}

} // verus!
