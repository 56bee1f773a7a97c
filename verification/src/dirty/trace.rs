use vstd::prelude::*;

use super::channel::Channel;
use super::key::Key;

verus! {

/// One call received by a [`DirtyTrace`].
#[derive(Copy, Clone, Debug, PartialEq, Eq)]
pub enum TraceCall<K> {
    /// `root(key, channel, newly_dirty)`.
    Root(K, Channel, bool),
    /// `caused_by(key, because, channel, newly_dirty)`.
    CausedBy(K, K, Channel, bool),
}

/// The key a trace call is about.
pub open spec fn call_key<K>(call: TraceCall<K>) -> K {
    match call {
        TraceCall::Root(k, _, _) => k,
        TraceCall::CausedBy(k, _, _, _) => k,
    }
}

/// Receiver for explanations of why keys became dirty.
///
/// Propagation and drain expansion call `root` for each explicitly marked
/// key and `caused_by` for each dependency edge they follow.
pub trait DirtyTrace<K> {
    /// Whether this receiver keeps `calls` as the log of the calls it has
    /// received. Receivers that do set it to `true`; for the others nothing is
    /// claimed of the calls they get.
    open spec fn obeys_call_log_spec(&self) -> bool {
        false
    }

    /// The calls received so far, oldest first.
    open spec fn calls(&self) -> Seq<TraceCall<K>> {
        Seq::empty()
    }

    /// `key` was marked explicitly in `channel`; `newly_dirty` tells whether
    /// it was not dirty (or not yet visited) before.
    fn root(&mut self, key: K, channel: Channel, newly_dirty: bool)
        ensures
            old(self).obeys_call_log_spec() ==> final(self).obeys_call_log_spec()
                && final(self).calls() == old(self).calls().push(TraceCall::Root(key, channel, newly_dirty)),
    ;

    /// `key` became affected in `channel` because it depends on `because`.
    fn caused_by(&mut self, key: K, because: K, channel: Channel, newly_dirty: bool)
        ensures
            old(self).obeys_call_log_spec() ==> final(self).obeys_call_log_spec()
                && final(self).calls() == old(self).calls().push(TraceCall::CausedBy(key, because, channel, newly_dirty)),
    ;
}

/// Why one key was recorded as dirty.
#[derive(Copy, Clone, Debug, PartialEq, Eq)]
pub enum DirtyCause<K> {
    /// The key was marked explicitly.
    Root,
    /// The key depends on this key, which was dirty first.
    Because(K),
}

/// A trace recorder that keeps the first cause seen for each key and channel
/// (a spanning forest of one plausible explanation per key).
#[derive(Clone)]
pub struct OneParentRecorder<K> {
    entries: Vec<(K, Channel, DirtyCause<K>)>,
    log: Ghost<Seq<TraceCall<K>>>,
}

impl<K: Key> OneParentRecorder<K> {
    /// The recorded `(key, channel, cause)` triples, in recording order.
    pub closed spec fn records(self) -> Seq<(K, Channel, DirtyCause<K>)> {
        self.entries@
    }

    /// A cause is recorded for `k` in channel `c`.
    pub open spec fn recorded(self, k: K, c: nat) -> bool {
        exists|i: int| 0 <= i < self.records().len() && #[trigger] self.records()[i].0 == k && self.records()[i].1.idx() == c
    }

    /// The recorded cause of `k` in channel `c` holds at position `i`.
    pub open spec fn cause_at(self, k: K, c: nat, i: int) -> bool {
        0 <= i < self.records().len() && self.records()[i].0 == k && self.records()[i].1.idx() == c
    }

    /// At most one cause is recorded per key and channel.
    pub open spec fn wf(self) -> bool {
        forall|i: int, j: int| #[trigger] self.cause_at(self.records()[i].0, self.records()[i].1.idx(), j)
            && 0 <= i < self.records().len() ==> i == j
    }

    /// `path` runs from a root to its last key, each key recorded as caused by
    /// the one before it.
    pub open spec fn explains(self, path: Seq<K>, c: nat) -> bool {
        &&& path.len() > 0
        &&& exists|i: int| #[trigger] self.cause_at(path[0], c, i) && self.records()[i].2 == DirtyCause::<K>::Root
        &&& forall|m: int| 0 < m < path.len() ==> #[trigger] self.linked(path[m], path[m - 1], c)
    }

    /// `k` is recorded in channel `c` as caused by `parent`.
    pub open spec fn linked(self, k: K, parent: K, c: nat) -> bool {
        exists|i: int| #[trigger] self.cause_at(k, c, i) && self.records()[i].2 == DirtyCause::Because(parent)
    }

    /// Some recorded chain of causes runs from a root to `key` in channel `c`.
    pub open spec fn has_explanation(self, key: K, c: nat) -> bool {
        exists|path: Seq<K>| #[trigger] self.explains(path, c) && path.last() == key
    }

    /// The keys of an explaining chain are distinct: each key has one
    /// recorded cause, so a repeated key would force the chain back onto its
    /// root, whose cause is no link.
    proof fn lemma_explained_distinct(self, path: Seq<K>, c: nat, a: int, b: int)
        requires
            self.wf(),
            self.explains(path, c),
            0 <= a < b < path.len(),
        ensures
            path[a] != path[b],
        decreases a,
    {
        if path[a] == path[b] {
            assert(self.linked(path[b], path[b - 1], c));
            let jb = choose|j: int| #[trigger] self.cause_at(path[b], c, j) && self.records()[j].2 == DirtyCause::Because(path[b - 1]);
            if a == 0 {
                let ia = choose|i: int| #[trigger] self.cause_at(path[0], c, i) && self.records()[i].2 == DirtyCause::<K>::Root;
                assert(self.cause_at(self.records()[ia].0, self.records()[ia].1.idx(), jb));
            } else {
                assert(self.linked(path[a], path[a - 1], c));
                let ja = choose|j: int| #[trigger] self.cause_at(path[a], c, j) && self.records()[j].2 == DirtyCause::Because(path[a - 1]);
                assert(self.cause_at(self.records()[ja].0, self.records()[ja].1.idx(), jb));
                self.lemma_explained_distinct(path, c, a - 1, b - 1);
            }
        }
    }

    /// An explaining chain is no longer than the records.
    proof fn lemma_explained_len(self, path: Seq<K>, c: nat)
        requires
            self.wf(),
            self.explains(path, c),
        ensures
            path.len() <= self.records().len(),
    {
        let idx = Seq::new(path.len(), |m: int| choose|i: int| self.cause_at(path[m], c, i));
        assert forall|m: int| 0 <= m < path.len() implies #[trigger] self.cause_at(path[m], c, idx[m]) by {
            if m == 0 {
                let i = choose|i: int| #[trigger] self.cause_at(path[0], c, i) && self.records()[i].2 == DirtyCause::<K>::Root;
                assert(self.cause_at(path[m], c, i));
            } else {
                assert(self.linked(path[m], path[m - 1], c));
                let i = choose|i: int| #[trigger] self.cause_at(path[m], c, i) && self.records()[i].2 == DirtyCause::Because(path[m - 1]);
                assert(self.cause_at(path[m], c, i));
            }
        }
        assert(idx.no_duplicates()) by {
            assert forall|a: int, b: int| 0 <= a < idx.len() && 0 <= b < idx.len() && a != b implies idx[a] != idx[b] by {
                assert(self.cause_at(path[a], c, idx[a]));
                assert(self.cause_at(path[b], c, idx[b]));
                if a < b {
                    self.lemma_explained_distinct(path, c, a, b);
                } else {
                    self.lemma_explained_distinct(path, c, b, a);
                }
            }
        }
        idx.unique_seq_to_set();
        vstd::set_lib::lemma_int_range(0, self.records().len() as int);
        assert(idx.to_set().subset_of(vstd::set_lib::set_int_range(0, self.records().len() as int))) by {
            assert forall|x: int| idx.to_set().contains(x) implies vstd::set_lib::set_int_range(
                0,
                self.records().len() as int,
            ).contains(x) by {
                let m = choose|m: int| 0 <= m < idx.len() && idx[m] == x;
                assert(self.cause_at(path[m], c, idx[m]));
            }
        }
        vstd::set_lib::lemma_len_subset(idx.to_set(), vstd::set_lib::set_int_range(0, self.records().len() as int));
    }

    /// Creates an empty recorder.
    pub fn new() -> (r: Self)
        ensures
            r.wf(),
            r.records().len() == 0,
            r.calls() == Seq::<TraceCall<K>>::empty(),
    {
        OneParentRecorder { entries: Vec::new(), log: Ghost(Seq::empty()) }
    }

    /// Forgets every recorded cause.
    pub fn clear(&mut self)
        ensures
            final(self).wf(),
            final(self).records().len() == 0,
    {
        self.entries.clear();
    }

    /// Returns the position of the record for `key` in `channel`, if any.
    fn find(&self, key: K, channel: Channel) -> (r: Option<usize>)
        ensures
            match r {
                Some(i) => self.cause_at(key, channel.idx(), i as int),
                None => !self.recorded(key, channel.idx()),
            },
    {
        let mut i: usize = 0;
        while i < self.entries.len()
            invariant
                i <= self.entries@.len(),
                forall|j: int| 0 <= j < i ==> !self.cause_at(key, channel.idx(), j),
            decreases self.entries@.len() - i,
        {
            let e = &self.entries[i];
            if e.0.key_eq(&key) && e.1.index() == channel.index() {
                return Some(i);
            }
            i += 1;
        }
        proof {
            assert forall|j: int| 0 <= j < self.records().len() && #[trigger] self.records()[j].0 == key
                implies self.records()[j].1.idx() != channel.idx() by {
                assert(!self.cause_at(key, channel.idx(), j));
            }
        }
        None
    }

    /// Returns the recorded cause of `key` in `channel`, if any.
    pub fn cause(&self, key: K, channel: Channel) -> (r: Option<DirtyCause<K>>)
        ensures
            match r {
                Some(cause) => exists|i: int| #[trigger] self.cause_at(key, channel.idx(), i) && self.records()[i].2 == cause,
                None => !self.recorded(key, channel.idx()),
            },
    {
        match self.find(key, channel) {
            Some(i) => Some(self.entries[i].2),
            None => None,
        }
    }

    /// Records `cause` for `key` unless a cause is already recorded.
    fn record(&mut self, key: K, channel: Channel, cause: DirtyCause<K>)
        ensures
            old(self).wf() ==> final(self).wf(),
            old(self).recorded(key, channel.idx()) ==> final(self).records() == old(self).records(),
            !old(self).recorded(key, channel.idx()) ==> final(self).records() == old(self).records().push((key, channel, cause)),
            final(self).log@ == old(self).log@,
    {
        if self.find(key, channel).is_none() {
            self.entries.push((key, channel, cause));
            proof {
                let r = self.records();
                let o = old(self).records();
                if old(self).wf() {
                assert forall|i: int, j: int| #[trigger] self.cause_at(r[i].0, r[i].1.idx(), j) && 0 <= i < r.len() implies i == j by {
                    if i < o.len() && j < o.len() {
                        assert(old(self).cause_at(o[i].0, o[i].1.idx(), j));
                    } else if i < o.len() {
                        assert(old(self).cause_at(key, channel.idx(), i));
                    } else if j < o.len() {
                        assert(old(self).cause_at(key, channel.idx(), j));
                    }
                }
                }
            }
        }
    }

    /// Explains why `key` is dirty in `channel`: the recorded chain of
    /// causes from a root to `key`, or `None` if `key` has no recorded cause
    /// or its chain does not end at a root.
    pub fn explain_path(&self, key: K, channel: Channel) -> (r: Option<Vec<K>>)
        requires
            self.wf(),
        ensures
            r is None <==> !self.has_explanation(key, channel.idx()),
            !self.recorded(key, channel.idx()) ==> r is None,
            r matches Some(path) ==> self.explains(path@, channel.idx()) && path@.last() == key,
    {
        let ghost c = channel.idx();
        let ghost has = self.has_explanation(key, c);
        let ghost full = if has {
            choose|path: Seq<K>| #[trigger] self.explains(path, c) && path.last() == key
        } else {
            Seq::<K>::empty()
        };
        proof {
            if has {
                self.lemma_explained_len(full, c);
            }
        }
        // Collected from `key` back towards the root.
        let mut rev: Vec<K> = Vec::new();
        rev.push(key);
        let mut cur = key;
        let mut steps: usize = 0;
        let bound = self.entries.len();
        while steps < bound
            invariant
                self.wf(),
                c == channel.idx(),
                rev@.len() > 0,
                rev@[0] == key,
                cur == rev@.last(),
                bound == self.records().len(),
                forall|m: int| 0 <= m < rev@.len() - 1 ==> #[trigger] self.linked(rev@[m], rev@[m + 1], c),
                rev@.len() == steps + 1,
                steps <= bound,
                has == self.has_explanation(key, c),
                has ==> self.explains(full, c) && full.last() == key && full.len() <= bound,
                has ==> rev@.len() <= full.len(),
                has ==> forall|m: int| 0 <= m < rev@.len() ==> #[trigger] rev@[m] == full[full.len() - 1 - m],
            decreases bound - steps,
        {
            match self.find(cur, channel) {
                None => {
                    proof {
                        if has {
                            let j = full.len() - rev@.len();
                            assert(rev@[rev@.len() - 1] == full[j]);
                            if j == 0 {
                                let w = choose|w: int| #[trigger] self.cause_at(full[0], c, w) && self.records()[w].2
                                    == DirtyCause::<K>::Root;
                                assert(self.records()[w].0 == cur);
                            } else {
                                assert(self.linked(full[j], full[j - 1], c));
                                let w = choose|w: int| #[trigger] self.cause_at(full[j], c, w) && self.records()[w].2
                                    == DirtyCause::Because(full[j - 1]);
                                assert(self.records()[w].0 == cur);
                            }
                        }
                    }
                    return None;
                },
                Some(i) => {
                    match self.entries[i].2 {
                        DirtyCause::Root => {
                            proof {
                                if rev@.len() > 1 {
                                    assert(self.linked(rev@[0], rev@[0int + 1], c));
                                    let w = choose|w: int| #[trigger] self.cause_at(rev@[0], c, w) && self.records()[w].2 == DirtyCause::Because(rev@[1]);
                                    assert(self.records()[w].0 == key);
                                } else {
                                    assert(self.records()[i as int].0 == key);
                                }
                                assert(self.recorded(key, c));
                            }
                            let mut path: Vec<K> = Vec::new();
                            let mut m = rev.len();
                            while m > 0
                                invariant
                                    m <= rev@.len(),
                                    path@.len() == rev@.len() - m,
                                    forall|q: int| 0 <= q < path@.len() ==> #[trigger] path@[q] == rev@[rev@.len() - 1 - q],
                                decreases m,
                            {
                                m -= 1;
                                path.push(rev[m]);
                            }
                            proof {
                                assert(path@[0] == cur);
                                assert(self.cause_at(path@[0], c, i as int));
                                assert forall|q: int| 0 < q < path@.len() implies #[trigger] self.linked(path@[q], path@[q - 1], c) by {
                                    let mm = rev@.len() - 1 - q;
                                    assert(path@[q] == rev@[mm]);
                                    assert(path@[q - 1] == rev@[mm + 1]);
                                    assert(self.linked(rev@[mm], rev@[mm + 1], c));
                                }
                                assert(path@.last() == key);
                                assert(self.recorded(key, c));
                                assert(self.explains(path@, c));
                            }
                            return Some(path);
                        },
                        DirtyCause::Because(parent) => {
                            let ghost old_rev = rev@;
                            proof {
                                assert(self.cause_at(rev@[rev@.len() - 1], c, i as int));
                                assert(self.linked(cur, parent, c));
                            }
                            proof {
                                if has {
                                    let j = full.len() - rev@.len();
                                    assert(rev@[rev@.len() - 1] == full[j]);
                                    if j == 0 {
                                        let w = choose|w: int| #[trigger] self.cause_at(full[0], c, w)
                                            && self.records()[w].2 == DirtyCause::<K>::Root;
                                        assert(self.cause_at(self.records()[i as int].0, self.records()[i as int].1.idx(), w));
                                    } else {
                                        assert(self.linked(full[j], full[j - 1], c));
                                        let w = choose|w: int| #[trigger] self.cause_at(full[j], c, w)
                                            && self.records()[w].2 == DirtyCause::Because(full[j - 1]);
                                        assert(self.cause_at(self.records()[i as int].0, self.records()[i as int].1.idx(), w));
                                        assert(parent == full[j - 1]);
                                    }
                                }
                            }
                            rev.push(parent);
                            cur = parent;
                            proof {
                                if has {
                                    assert forall|m: int| 0 <= m < rev@.len() implies #[trigger] rev@[m] == full[full.len() - 1 - m] by {
                                        if m < old_rev.len() {
                                            assert(rev@[m] == old_rev[m]);
                                        }
                                    }
                                }
                                assert forall|m: int| 0 <= m < rev@.len() - 1 implies #[trigger] self.linked(rev@[m], rev@[m + 1], c) by {
                                    if m < old_rev.len() - 1 {
                                        assert(rev@[m] == old_rev[m] && rev@[m + 1] == old_rev[m + 1]);
                                    }
                                }
                            }
                        },
                    }
                },
            }
            steps += 1;
        }
        None
    }
}

impl<K: Key> DirtyTrace<K> for OneParentRecorder<K> {
    open spec fn obeys_call_log_spec(&self) -> bool {
        true
    }

    closed spec fn calls(&self) -> Seq<TraceCall<K>> {
        self.log@
    }

    /// Records `key` as a root in `channel` unless a cause is already
    /// recorded for it there.
    fn root(&mut self, key: K, channel: Channel, newly_dirty: bool)
        ensures
            old(self).wf() ==> final(self).wf(),
            old(self).recorded(key, channel.idx()) ==> final(self).records() == old(self).records(),
            !old(self).recorded(key, channel.idx()) ==> final(self).records() == old(self).records().push(
                (key, channel, DirtyCause::Root),
            ),
    {
        self.record(key, channel, DirtyCause::Root);
        let ghost mid = *self;
        proof {
            self.log@ = self.log@.push(TraceCall::Root(key, channel, newly_dirty));
            assert(self.records() == mid.records());
            if mid.wf() {
                let r = self.records();
                assert forall|i: int, j: int| #[trigger] self.cause_at(r[i].0, r[i].1.idx(), j) && 0 <= i < r.len() implies i == j by {
                    assert(mid.cause_at(r[i].0, r[i].1.idx(), j));
                }
            }
        }
    }

    /// Records `key` as caused by `because` in `channel` unless a cause is
    /// already recorded for it there.
    fn caused_by(&mut self, key: K, because: K, channel: Channel, newly_dirty: bool)
        ensures
            old(self).wf() ==> final(self).wf(),
            old(self).recorded(key, channel.idx()) ==> final(self).records() == old(self).records(),
            !old(self).recorded(key, channel.idx()) ==> final(self).records() == old(self).records().push(
                (key, channel, DirtyCause::Because(because)),
            ),
    {
        self.record(key, channel, DirtyCause::Because(because));
        let ghost mid = *self;
        proof {
            self.log@ = self.log@.push(TraceCall::CausedBy(key, because, channel, newly_dirty));
            assert(self.records() == mid.records());
            if mid.wf() {
                let r = self.records();
                assert forall|i: int, j: int| #[trigger] self.cause_at(r[i].0, r[i].1.idx(), j) && 0 <= i < r.len() implies i == j by {
                    assert(mid.cause_at(r[i].0, r[i].1.idx(), j));
                }
            }
        }
    }
}

} // verus!
