use vstd::prelude::*;

use super::channel::Channel;
use super::drain_builder::{drain_keys, lemma_affected_all, newly_reported, traced_expansion, DrainBuilder, DrainMode, Within};
use super::scratch::TraversalScratch;
use super::set::DirtySet;
use super::trace::DirtyTrace;
use super::graph::{lemma_push_contains, lemma_push_fresh, prepare_dense_growth, DirtyGraph};
use super::hashed::IndexMap;
use super::key::DenseKey;

verus! {

/// Number of values of `s` that lie in `p` (counted with multiplicity).
pub open spec fn count_in<K>(s: Seq<K>, p: Set<K>) -> nat
    decreases s.len(),
{
    if s.len() == 0 {
        0
    } else {
        count_in(s.drop_last(), p) + if p.contains(s.last()) { 1nat } else { 0nat }
    }
}

/// A count is at most the length.
pub proof fn lemma_count_le<K>(s: Seq<K>, p: Set<K>)
    ensures
        count_in(s, p) <= s.len(),
    decreases s.len(),
{
    if s.len() > 0 {
        lemma_count_le(s.drop_last(), p);
    }
}

/// The count is zero exactly when no value of `s` lies in `p`.
pub proof fn lemma_count_zero<K>(s: Seq<K>, p: Set<K>)
    ensures
        (count_in(s, p) == 0) == (forall|d: K| #[trigger] s.contains(d) ==> !p.contains(d)),
    decreases s.len(),
{
    if s.len() > 0 {
        let t = s.drop_last();
        lemma_count_zero(t, p);
        assert(t.push(s.last()) == s);
        lemma_push_contains(t, s.last());
        if count_in(s, p) == 0 {
            assert forall|d: K| #[trigger] s.contains(d) implies !p.contains(d) by {
                if d != s.last() {
                    assert(t.contains(d));
                }
            }
        }
        if forall|d: K| #[trigger] s.contains(d) ==> !p.contains(d) {
            assert(!p.contains(s.last())) by {
                assert(s.contains(s.last())) by { assert(s[s.len() - 1] == s.last()); }
            }
            assert forall|d: K| #[trigger] t.contains(d) implies !p.contains(d) by {
                assert(s.contains(d));
            }
        }
    }
}

/// Removing one value from `p` lowers the count by one if that value occurs
/// (once) in `s` and was in `p`.
pub proof fn lemma_count_remove<K>(s: Seq<K>, p: Set<K>, x: K)
    requires
        s.no_duplicates(),
    ensures
        count_in(s, p.remove(x)) == count_in(s, p) - if s.contains(x) && p.contains(x) { 1int } else { 0int },
    decreases s.len(),
{
    if s.len() > 0 {
        let t = s.drop_last();
        assert(t.no_duplicates());
        lemma_count_remove(t, p, x);
        assert(t.push(s.last()) == s);
        lemma_push_contains(t, s.last());
        if s.last() == x {
            assert(!t.contains(x)) by {
                if t.contains(x) {
                    let j = choose|j: int| 0 <= j < t.len() && t[j] == x;
                    assert(s[j] == s[s.len() - 1]);
                }
            }
            lemma_count_zero_absent(t, p, x);
        }
    }
}

/// A value absent from `s` does not affect the count.
pub proof fn lemma_count_zero_absent<K>(s: Seq<K>, p: Set<K>, x: K)
    requires
        !s.contains(x),
    ensures
        count_in(s, p.remove(x)) == count_in(s, p),
    decreases s.len(),
{
    if s.len() > 0 {
        let t = s.drop_last();
        assert(t.push(s.last()) == s);
        lemma_push_contains(t, s.last());
        lemma_count_zero_absent(t, p, x);
    }
}

/// Counting a one-longer prefix.
pub proof fn lemma_count_prefix<K>(s: Seq<K>, p: Set<K>, j: int)
    requires
        0 <= j < s.len(),
    ensures
        count_in(s.subrange(0, j + 1), p) == count_in(s.subrange(0, j), p) + if p.contains(s[j]) { 1int } else { 0int },
{
    assert(s.subrange(0, j + 1).drop_last() == s.subrange(0, j));
}


/// `k` is in `p` and none of its dependencies (in channel `c`) are.
pub open spec fn ready_in<K: DenseKey>(g: DirtyGraph<K>, c: nat, p: Set<K>, k: K) -> bool {
    p.contains(k) && count_in(g.deps(k, c), p) == 0
}

/// `out` lists keys of `p0` in an order where each key comes after all of
/// its dependencies that lie in `p0`.
pub open spec fn is_topological<K: DenseKey>(g: DirtyGraph<K>, c: nat, p0: Set<K>, out: Seq<K>) -> bool {
    &&& out.no_duplicates()
    &&& forall|i: int| 0 <= i < out.len() ==> p0.contains(#[trigger] out[i])
    &&& forall|i: int, d: K| 0 <= i < out.len() && #[trigger] g.deps(out[i], c).contains(d) && p0.contains(d)
        ==> out.subrange(0, i).contains(d)
}

/// Every key left in `left` still has a dependency in `left`: nothing more
/// can be drained.
pub open spec fn is_stuck<K: DenseKey>(g: DirtyGraph<K>, c: nat, left: Set<K>) -> bool {
    forall|k: K| #[trigger] left.contains(k) ==> count_in(g.deps(k, c), left) > 0
}

/// The completion reported after draining `p0` into `out`.
pub open spec fn completion_after<K>(stalled_before: bool, p0: Set<K>, out: Seq<K>) -> DrainCompletion {
    let left = p0.difference(out.to_set());
    if stalled_before || left.len() > 0 {
        DrainCompletion::Stalled { remaining: left.len() as usize }
    } else {
        DrainCompletion::Complete
    }
}

/// Indicates whether a drain finished normally or stalled due to a cycle.
#[derive(Copy, Clone, Debug, PartialEq, Eq, Structural)]
pub enum DrainCompletion {
    /// All keys were yielded.
    Complete,
    /// The drain stalled: some keys remained with dirty dependencies (a cycle).
    Stalled {
        /// Number of keys that could not be yielded.
        remaining: usize,
    },
}


/// The predicate "`d` is ready among `p`", as a function value.
pub open spec fn ready_pred<K: DenseKey>(g: DirtyGraph<K>, c: nat, p: Set<K>) -> spec_fn(K) -> bool {
    |d: K| ready_in(g, c, p, d)
}

/// Topologically sorted drain (Kahn's algorithm).
///
/// Yields each pending key only after all of its pending dependencies. Ready
/// keys are yielded first-in, first-out: initially in input order, then in
/// the order they become ready. Pending in-degrees are kept in a hash map
/// keyed by key index.
#[verifier::reject_recursive_types(K)]
pub struct DrainSorted<'a, K> {
    graph: &'a DirtyGraph<K>,
    channel: Channel,
    /// Ready keys; the live queue is `queue[head..]`.
    queue: Vec<K>,
    head: usize,
    /// Pending in-degree of each pending key, by key index.
    in_degree: IndexMap,
    stalled: bool,
    pending_keys: Ghost<Set<K>>,
}

/// `out` lists keys of `p0` in dependency order, taking at each step a
/// ready key of smallest index, and stops only when no key is ready.
pub open spec fn is_smallest_first_listing<K: DenseKey>(g: DirtyGraph<K>, c: nat, p0: Set<K>, out: Seq<K>) -> bool {
    &&& is_topological(g, c, p0, out)
    &&& forall|i: int, k: K| 0 <= i < out.len() && #[trigger] ready_in(g, c, p0.difference(out.subrange(0, i).to_set()), k)
        ==> (#[trigger] out[i]).spec_index() <= k.spec_index()
    &&& is_stuck(g, c, p0.difference(out.to_set()))
}

/// The smallest-index-first listing of `p0`, which
/// `lemma_smallest_first_unique` shows there is at most one of.
pub open spec fn smallest_first_listing<K: DenseKey>(g: DirtyGraph<K>, c: nat, p0: Set<K>) -> Seq<K> {
    choose|out: Seq<K>| #[trigger] is_smallest_first_listing(g, c, p0, out)
}

/// A dependency-ordered listing of `p0` lists no key of a cycle whose keys
/// all lie in `p0`: a drain leaves every key of such a cycle pending.
pub proof fn lemma_cycle_left_over<K: DenseKey>(g: DirtyGraph<K>, c: nat, p0: Set<K>, out: Seq<K>, cycle: Seq<K>)
    requires
        is_topological(g, c, p0, out),
        g.is_path(c, cycle),
        cycle.len() >= 2,
        cycle[0] == cycle.last(),
        forall|m: int| 0 <= m < cycle.len() ==> p0.contains(#[trigger] cycle[m]),
    ensures
        forall|m: int| 0 <= m < cycle.len() ==> !out.contains(#[trigger] cycle[m]),
{
    lemma_cycle_absent_before(g, c, p0, out, cycle, out.len() as int);
    assert forall|m: int| 0 <= m < cycle.len() implies !out.contains(#[trigger] cycle[m]) by {
        if out.contains(cycle[m]) {
            let q = choose|q: int| 0 <= q < out.len() && out[q] == cycle[m];
            assert(out.subrange(0, out.len() as int)[q] == cycle[m]);
        }
    }
}

/// No key of the cycle stands among the first `q` keys of the listing.
proof fn lemma_cycle_absent_before<K: DenseKey>(g: DirtyGraph<K>, c: nat, p0: Set<K>, out: Seq<K>, cycle: Seq<K>, q: int)
    requires
        is_topological(g, c, p0, out),
        g.is_path(c, cycle),
        cycle.len() >= 2,
        cycle[0] == cycle.last(),
        forall|m: int| 0 <= m < cycle.len() ==> p0.contains(#[trigger] cycle[m]),
        0 <= q <= out.len(),
    ensures
        forall|m: int| 0 <= m < cycle.len() ==> !out.subrange(0, q).contains(#[trigger] cycle[m]),
    decreases q,
{
    if q > 0 {
        lemma_cycle_absent_before(g, c, p0, out, cycle, q - 1);
        assert forall|m: int| 0 <= m < cycle.len() implies !out.subrange(0, q).contains(#[trigger] cycle[m]) by {
            if out.subrange(0, q).contains(cycle[m]) {
                let i = choose|i: int| 0 <= i < q && out.subrange(0, q)[i] == cycle[m];
                if i < q - 1 {
                    assert(out.subrange(0, q - 1)[i] == cycle[m]);
                } else {
                    let mm = if m < cycle.len() - 1 { m } else { 0 };
                    assert(cycle[mm] == cycle[m]);
                    assert(g.edge_at(c, cycle, mm));
                    let d = cycle[mm + 1];
                    assert(g.deps(out[q - 1], c).contains(d));
                    assert(p0.contains(d));
                    assert(out.subrange(0, q - 1).contains(d));
                    assert(!out.subrange(0, q - 1).contains(cycle[mm + 1]));
                }
            }
        }
    }
}

/// Key `j` of a dependency-ordered listing of `p0` is ready among the keys
/// of `p0` not listed before it.
pub proof fn lemma_topological_ready<K: DenseKey>(g: DirtyGraph<K>, c: nat, p0: Set<K>, out: Seq<K>, j: int)
    requires
        is_topological(g, c, p0, out),
        0 <= j < out.len(),
    ensures
        ready_in(g, c, p0.difference(out.subrange(0, j).to_set()), out[j]),
{
    let r = p0.difference(out.subrange(0, j).to_set());
    assert(!out.subrange(0, j).contains(out[j])) by {
        if out.subrange(0, j).contains(out[j]) {
            let m = choose|m: int| 0 <= m < j && out.subrange(0, j)[m] == out[j];
            assert(out[m] == out[j]);
        }
    }
    assert(r.contains(out[j]));
    lemma_count_zero(g.deps(out[j], c), r);
    assert forall|d: K| #[trigger] g.deps(out[j], c).contains(d) implies !r.contains(d) by {
        if p0.contains(d) {
            assert(out.subrange(0, j).contains(d));
        }
    }
}

/// Two smallest-index-first listings of `p0` agree on their first `n` keys.
proof fn lemma_prefix_agree<K: DenseKey>(g: DirtyGraph<K>, c: nat, p0: Set<K>, a: Seq<K>, b: Seq<K>, n: int)
    requires
        is_topological(g, c, p0, a),
        forall|i: int, k: K| 0 <= i < a.len() && #[trigger] ready_in(g, c, p0.difference(a.subrange(0, i).to_set()), k)
            ==> (#[trigger] a[i]).spec_index() <= k.spec_index(),
        is_topological(g, c, p0, b),
        forall|i: int, k: K| 0 <= i < b.len() && #[trigger] ready_in(g, c, p0.difference(b.subrange(0, i).to_set()), k)
            ==> (#[trigger] b[i]).spec_index() <= k.spec_index(),
        0 <= n <= a.len(),
        n <= b.len(),
    ensures
        a.subrange(0, n) == b.subrange(0, n),
    decreases n,
{
    if n > 0 {
        let i = n - 1;
        lemma_prefix_agree(g, c, p0, a, b, i);
        lemma_topological_ready(g, c, p0, a, i);
        lemma_topological_ready(g, c, p0, b, i);
        assert(ready_in(g, c, p0.difference(a.subrange(0, i).to_set()), b[i]));
        assert(ready_in(g, c, p0.difference(b.subrange(0, i).to_set()), a[i]));
        assert(a[i].spec_index() == b[i].spec_index());
        K::lemma_index_injective(a[i], b[i]);
        assert(a.subrange(0, n) =~= a.subrange(0, i).push(a[i]));
        assert(b.subrange(0, n) =~= b.subrange(0, i).push(b[i]));
    }
}

/// Listing, at every step, a ready key of smallest index, and stopping only
/// when no key is ready, fixes the whole listing: what a deterministic drain
/// yields depends on the graph, the channel and the pending keys alone, so a
/// peek and a drain of the same marks yield the same keys in the same order.
pub proof fn lemma_smallest_first_unique<K: DenseKey>(g: DirtyGraph<K>, c: nat, p0: Set<K>, a: Seq<K>, b: Seq<K>)
    requires
        is_topological(g, c, p0, a),
        forall|i: int, k: K| 0 <= i < a.len() && #[trigger] ready_in(g, c, p0.difference(a.subrange(0, i).to_set()), k)
            ==> (#[trigger] a[i]).spec_index() <= k.spec_index(),
        is_stuck(g, c, p0.difference(a.to_set())),
        is_topological(g, c, p0, b),
        forall|i: int, k: K| 0 <= i < b.len() && #[trigger] ready_in(g, c, p0.difference(b.subrange(0, i).to_set()), k)
            ==> (#[trigger] b[i]).spec_index() <= k.spec_index(),
        is_stuck(g, c, p0.difference(b.to_set())),
    ensures
        a == b,
{
    if a.len() < b.len() {
        let n = a.len() as int;
        lemma_prefix_agree(g, c, p0, a, b, n);
        assert(a.subrange(0, n) == a);
        lemma_topological_ready(g, c, p0, b, n);
        let left = p0.difference(a.to_set());
        assert(left.contains(b[n]));
    } else if b.len() < a.len() {
        let n = b.len() as int;
        lemma_prefix_agree(g, c, p0, a, b, n);
        assert(b.subrange(0, n) == b);
        lemma_topological_ready(g, c, p0, a, n);
        let left = p0.difference(b.to_set());
        assert(left.contains(a[n]));
    } else {
        lemma_prefix_agree(g, c, p0, a, b, a.len() as int);
        assert(a.subrange(0, a.len() as int) == a);
        assert(b.subrange(0, b.len() as int) == b);
    }
}

/// A key of a dependency cycle whose keys are all pending is never ready:
/// no drain yields a key of such a cycle.
pub proof fn lemma_cycle_never_ready<K: DenseKey>(g: DirtyGraph<K>, c: nat, p: Set<K>, cycle: Seq<K>, i: int)
    requires
        g.is_path(c, cycle),
        cycle.len() >= 2,
        cycle[0] == cycle.last(),
        forall|m: int| 0 <= m < cycle.len() ==> p.contains(#[trigger] cycle[m]),
        0 <= i < cycle.len(),
    ensures
        !ready_in(g, c, p, cycle[i]),
{
    let j = if i < cycle.len() - 1 { i } else { 0 };
    assert(cycle[j] == cycle[i]);
    assert(g.edge_at(c, cycle, j));
    lemma_count_zero(g.deps(cycle[j], c), p);
    assert(p.contains(cycle[j + 1]));
}

impl<'a, K: DenseKey> DrainSorted<'a, K> {
    /// A stalled drain yields nothing more: keys are still pending and none
    /// of them is ready.
    pub proof fn lemma_stalled_stays(self)
        requires
            self.wf(),
            self.stalled_view(),
        ensures
            self.pending_set().len() > 0,
            forall|k: K| !#[trigger] self.is_ready(k),
    {
        assert forall|k: K| !#[trigger] self.is_ready(k) by {
            if self.is_ready(k) {
                assert(self.queue_view().contains(k));
            }
        }
    }

    /// A drain with keys pending and none ready, as when it stalls, holds a
    /// dependency cycle among its pending keys.
    pub proof fn lemma_stall_holds_cycle(self)
        requires
            self.wf(),
            self.pending_set().len() > 0,
            forall|k: K| !#[trigger] self.is_ready(k),
        ensures
            exists|k: K| #[trigger] self.pending_set().contains(k) && self.graph_view().depends_transitively(self.channel_view().idx(), k, k),
    {
        self.lemma_pending_finite(self.pending_set().choose());
        let g = self.graph_view();
        let c = self.channel_view().idx();
        let p = self.pending_set();
        assert forall|k: K| #[trigger] p.contains(k) implies count_in(g.deps(k, c), p) > 0 by {
            assert(!self.is_ready(k));
        }
        lemma_stuck_has_cycle(g, c, p);
    }

    /// The keys still to drain are finitely many; a yielded key, which was
    /// ready and so pending, leaves exactly one fewer.
    pub proof fn lemma_pending_finite(self, k: K)
        requires
            self.wf(),
        ensures
            self.pending_set().finite(),
            self.is_ready(k) ==> self.pending_set().remove(k).len() == self.pending_set().len() - 1,
    {
    }

    /// The dependency graph being drained.
    pub closed spec fn graph_view(self) -> DirtyGraph<K> {
        *self.graph
    }

    /// The channel being drained.
    pub closed spec fn channel_view(self) -> Channel {
        self.channel
    }

    /// Keys not yet yielded.
    pub closed spec fn pending_set(self) -> Set<K> {
        self.pending_keys@
    }

    /// Whether the drain has stalled.
    pub closed spec fn stalled_view(self) -> bool {
        self.stalled
    }

    /// Ready keys in the order they will be yielded.
    pub closed spec fn queue_view(self) -> Seq<K> {
        self.queue@.subrange(self.head as int, self.queue@.len() as int)
    }

    /// `k` is pending and all of its dependencies have been yielded.
    pub open spec fn is_ready(self, k: K) -> bool {
        ready_in(self.graph_view(), self.channel_view().idx(), self.pending_set(), k)
    }

    /// Internal consistency of the in-degree map and the queue.
    pub closed spec fn wf(self) -> bool {
        &&& self.graph.wf()
        &&& self.pending_keys@.finite()
        &&& forall|k: K| #[trigger] self.pending_keys@.contains(k) <==> self.in_degree.contents().dom().contains(k.spec_index())
        &&& forall|i: usize| #[trigger] self.in_degree.contents().dom().contains(i)
            ==> exists|k: K| self.pending_keys@.contains(k) && k.spec_index() == i
        &&& forall|k: K| #[trigger] self.pending_keys@.contains(k)
            ==> self.in_degree.contents()[k.spec_index()] == count_in(self.graph.deps(k, self.channel.idx()), self.pending_keys@)
        &&& self.head <= self.queue@.len()
        &&& self.queue_view().no_duplicates()
        &&& forall|k: K| #[trigger] self.queue_view().contains(k) <==> self.is_ready(k)
        &&& self.stalled ==> self.head == self.queue@.len() && self.pending_keys@.len() > 0
    }

    /// The number of pending keys equals the number of in-degree entries.
    proof fn lemma_len(self)
        requires
            self.wf(),
        ensures
            self.in_degree.contents().dom().len() == self.pending_set().len(),
    {
        let f = |k: K| k.spec_index();
        let dom = self.in_degree.contents().dom();
        assert(self.pending_keys@.map(f) =~= dom) by {
            assert forall|i: usize| #[trigger] dom.contains(i) implies self.pending_keys@.map(f).contains(i) by {
                let k = choose|k: K| self.pending_keys@.contains(k) && k.spec_index() == i;
                assert(f(k) == i);
            }
        }
        assert(vstd::relations::injective_on(f, self.pending_keys@)) by {
            assert forall|a: K, b: K| self.pending_keys@.contains(a) && self.pending_keys@.contains(b) && #[trigger] f(a) == #[trigger] f(b)
                implies a == b by {
                K::lemma_index_injective(a, b);
            }
        }
        vstd::set_lib::lemma_map_size(self.pending_keys@, dom, f);
    }

    /// Builds a drain over `dirty_keys` (duplicates ignored) in `channel`.
    pub fn from_iter_with_capacity(dirty_keys: Vec<K>, cap: usize, graph: &'a DirtyGraph<K>, channel: Channel) -> (d: Self)
        requires
            graph.wf(),
        ensures
            d.wf(),
            d.pending_set() == dirty_keys@.to_set(),
            d.graph_view() == *graph,
            d.channel_view() == channel,
            !d.stalled_view(),
            d.queue_view() == dedup_seq(dirty_keys@).filter(ready_pred(*graph, channel.idx(), dirty_keys@.to_set())),
    {
        let ghost c = channel.idx();
        let mut in_degree = IndexMap::with_capacity(cap);
        let mut unique: Vec<K> = Vec::with_capacity(cap);
        let mut i: usize = 0;
        while i < dirty_keys.len()
            invariant
                i <= dirty_keys@.len(),
                unique@.no_duplicates(),
                unique@ == dedup_seq(dirty_keys@.subrange(0, i as int)),
                unique@.to_set() == dirty_keys@.subrange(0, i as int).to_set(),
                forall|k: K| #[trigger] unique@.contains(k) <==> in_degree.contents().dom().contains(k.spec_index()),
                forall|j: usize| #[trigger] in_degree.contents().dom().contains(j) ==> exists|k: K| unique@.contains(k) && k.spec_index() == j,
                forall|k: K| #[trigger] unique@.contains(k) ==> in_degree.contents()[k.spec_index()] == 0,
            decreases dirty_keys@.len() - i,
        {
            let key = dirty_keys[i];
            let idx = key.index();
            let ghost old_unique = unique@;
            let ghost old_map = in_degree.contents();
            proof {
                assert(dirty_keys@.subrange(0, i + 1) == dirty_keys@.subrange(0, i as int).push(key));
                assert(dirty_keys@.subrange(0, i + 1).drop_last() == dirty_keys@.subrange(0, i as int));
                lemma_push_contains(dirty_keys@.subrange(0, i as int), key);
                lemma_dedup_seq_contains(dirty_keys@.subrange(0, i as int));
            }
            if in_degree.get(idx).is_none() {
                proof {
                    assert(!unique@.contains(key));
                    lemma_push_fresh(unique@, key);
                }
                let _ = in_degree.insert(idx, 0);
                unique.push(key);
                proof {
                    assert forall|k: K| #[trigger] unique@.contains(k) <==> in_degree.contents().dom().contains(k.spec_index()) by {
                        if k.spec_index() == idx {
                            K::lemma_index_injective(k, key);
                        }
                        assert(old_unique.contains(k) <==> old_map.dom().contains(k.spec_index()));
                    }
                    assert forall|j: usize| #[trigger] in_degree.contents().dom().contains(j) implies exists|k: K| unique@.contains(k) && k.spec_index() == j by {
                        if j == idx {
                            assert(unique@.contains(key));
                        } else {
                            assert(old_map.dom().contains(j));
                            let k = choose|k: K| old_unique.contains(k) && k.spec_index() == j;
                            assert(unique@.contains(k));
                        }
                    }
                    assert forall|k: K| #[trigger] unique@.contains(k) implies in_degree.contents()[k.spec_index()] == 0 by {
                        if k != key {
                            assert(old_unique.contains(k));
                        }
                    }
                    assert forall|y: K| #[trigger] unique@.to_set().contains(y) == dirty_keys@.subrange(0, i + 1).to_set().contains(y) by {
                        assert(old_unique.to_set().contains(y) == dirty_keys@.subrange(0, i as int).to_set().contains(y));
                    }
                    assert(unique@.to_set() =~= dirty_keys@.subrange(0, i + 1).to_set());
                }
            } else {
                proof {
                    assert(unique@.contains(key));
                    assert forall|y: K| #[trigger] unique@.to_set().contains(y) == dirty_keys@.subrange(0, i + 1).to_set().contains(y) by {
                        assert(old_unique.to_set().contains(y) == dirty_keys@.subrange(0, i as int).to_set().contains(y));
                    }
                    assert(unique@.to_set() =~= dirty_keys@.subrange(0, i + 1).to_set());
                }
            }
            i += 1;
        }
        proof {
            assert(dirty_keys@.subrange(0, i as int) == dirty_keys@);
        }
        let ghost pset = unique@.to_set();
        proof {
            assert forall|q: int| 0 <= q < unique@.len() implies #[trigger] in_degree.contents()[unique@[q].spec_index()] == 0 by {
                assert(unique@.contains(unique@[q]));
            }
        }
        let mut u: usize = 0;
        while u < unique.len()
            invariant
                graph.wf(),
                c == channel.idx(),
                u <= unique@.len(),
                unique@.no_duplicates(),
                pset == unique@.to_set(),
                forall|k: K| #[trigger] unique@.contains(k) <==> in_degree.contents().dom().contains(k.spec_index()),
                forall|j: usize| #[trigger] in_degree.contents().dom().contains(j) ==> exists|k: K| unique@.contains(k) && k.spec_index() == j,
                forall|q: int| 0 <= q < u ==> #[trigger] in_degree.contents()[unique@[q].spec_index()]
                    == count_in(graph.deps(unique@[q], c), pset),
                forall|q: int| u <= q < unique@.len() ==> #[trigger] in_degree.contents()[unique@[q].spec_index()] == 0,
            decreases unique@.len() - u,
        {
            let key = unique[u];
            let ki = key.index();
            proof {
                assert(unique@.contains(key));
            }
            let deps = graph.dependencies(key, channel);
            let mut j: usize = 0;
            while j < deps.len()
                invariant
                    graph.wf(),
                    c == channel.idx(),
                    u < unique@.len(),
                    key == unique@[u as int],
                    ki == key.spec_index(),
                    in_degree.contents().dom().contains(ki),
                    unique@.no_duplicates(),
                    pset == unique@.to_set(),
                    deps@ == graph.deps(key, c),
                    j <= deps@.len(),
                    forall|k: K| #[trigger] unique@.contains(k) <==> in_degree.contents().dom().contains(k.spec_index()),
                    forall|j2: usize| #[trigger] in_degree.contents().dom().contains(j2) ==> exists|k: K| unique@.contains(k) && k.spec_index() == j2,
                    in_degree.contents()[ki] == count_in(deps@.subrange(0, j as int), pset),
                    forall|q: int| 0 <= q < u ==> #[trigger] in_degree.contents()[unique@[q].spec_index()]
                        == count_in(graph.deps(unique@[q], c), pset),
                    forall|q: int| u < q < unique@.len() ==> #[trigger] in_degree.contents()[unique@[q].spec_index()] == 0,
                decreases deps@.len() - j,
            {
                let dep = deps[j];
                let di = dep.index();
                let ghost old_map = in_degree.contents();
                proof {
                    lemma_count_prefix(deps@, pset, j as int);
                    lemma_count_le(deps@.subrange(0, j as int), pset);
                    assert(pset.contains(dep) == unique@.contains(dep));
                }
                if in_degree.get(di).is_some() {
                    let cur = match in_degree.get(ki) {
                        Some(v) => v,
                        None => 0,
                    };
                    let _ = in_degree.insert(ki, cur + 1);
                    proof {
                        assert(in_degree.contents().dom() =~= old_map.dom());
                        assert forall|q: int| 0 <= q < u implies #[trigger] in_degree.contents()[unique@[q].spec_index()]
                            == count_in(graph.deps(unique@[q], c), pset) by {
                            if unique@[q].spec_index() == ki {
                                K::lemma_index_injective(unique@[q], key);
                            }
                        }
                        assert forall|q: int| u < q < unique@.len() implies #[trigger] in_degree.contents()[unique@[q].spec_index()] == 0 by {
                            if unique@[q].spec_index() == ki {
                                K::lemma_index_injective(unique@[q], key);
                            }
                        }
                    }
                }
                j += 1;
            }
            proof {
                assert(deps@.subrange(0, j as int) == deps@);
            }
            u += 1;
        }
        // Initially ready keys, in input order.
        let mut queue: Vec<K> = Vec::new();
        let ghost pred = ready_pred(*graph, c, pset);
        let mut u: usize = 0;
        while u < unique.len()
            invariant
                graph.wf(),
                c == channel.idx(),
                pred == ready_pred(*graph, c, pset),
                u <= unique@.len(),
                unique@.no_duplicates(),
                pset == unique@.to_set(),
                forall|k: K| #[trigger] unique@.contains(k) <==> in_degree.contents().dom().contains(k.spec_index()),
                forall|q: int| 0 <= q < unique@.len() ==> #[trigger] in_degree.contents()[unique@[q].spec_index()]
                    == count_in(graph.deps(unique@[q], c), pset),
                queue@ == unique@.subrange(0, u as int).filter(pred),
            decreases unique@.len() - u,
        {
            let key = unique[u];
            proof {
                assert(unique@.subrange(0, u + 1).drop_last() == unique@.subrange(0, u as int));
                assert(unique@.contains(key));
                assert(in_degree.contents().dom().contains(key.spec_index()));
            }
            let deg = match in_degree.get(key.index()) {
                Some(v) => v,
                None => 0,
            };
            proof {
                assert(in_degree.contents()[unique@[u as int].spec_index()] == count_in(graph.deps(unique@[u as int], c), pset));
                assert(pset.contains(key));
                assert(pred(key) == (deg == 0));
                unique@.subrange(0, u as int).lemma_filter_push(key, pred);
                assert(unique@.subrange(0, u + 1) == unique@.subrange(0, u as int).push(key));
                assert(unique@.subrange(0, u + 1).filter(pred) == if pred(key) {
                    unique@.subrange(0, u as int).filter(pred).push(key)
                } else {
                    unique@.subrange(0, u as int).filter(pred)
                });
            }
            if deg == 0 {
                queue.push(key);
            }
            u += 1;
        }
        proof {
            assert(unique@.subrange(0, u as int) == unique@);
        }
        let d = DrainSorted {
            graph,
            channel,
            queue,
            head: 0,
            in_degree,
            stalled: false,
            pending_keys: Ghost(pset),
        };
        proof {
            assert(d.queue_view() == queue@);
            lemma_filter_no_dup(unique@, pred);
            assert forall|k: K| #[trigger] d.pending_keys@.contains(k)
                implies d.in_degree.contents()[k.spec_index()] == count_in(graph.deps(k, c), pset) by {
                let q = choose|q: int| 0 <= q < unique@.len() && unique@[q] == k;
                assert(in_degree.contents()[unique@[q].spec_index()] == count_in(graph.deps(unique@[q], c), pset));
            }
            assert forall|k: K| #[trigger] d.queue_view().contains(k) <==> d.is_ready(k) by {
                if d.is_ready(k) {
                    let q = choose|q: int| 0 <= q < unique@.len() && unique@[q] == k;
                    assert(pred(unique@[q]));
                    assert(unique@.filter(pred).contains(k));
                }
                if queue@.contains(k) {
                    let q = choose|q: int| 0 <= q < queue@.len() && queue@[q] == k;
                    assert(pred(queue@[q]));
                }
            }
        }
        d
    }

    /// Returns `true` if no key is ready to be yielded.
    pub fn is_empty(&self) -> (r: bool)
        requires
            self.wf(),
        ensures
            r == (forall|k: K| !#[trigger] self.is_ready(k)),
    {
        if self.head >= self.queue.len() {
            proof {
                assert forall|k: K| !#[trigger] self.is_ready(k) by {
                    if self.is_ready(k) {
                        assert(self.queue_view().contains(k));
                    }
                }
            }
            true
        } else {
            proof {
                assert(self.queue_view().contains(self.queue_view()[0]));
            }
            false
        }
    }

    /// Returns the number of keys not yet yielded.
    pub fn remaining(&self) -> (r: usize)
        requires
            self.wf(),
        ensures
            r == self.pending_set().len(),
    {
        proof {
            self.lemma_len();
        }
        self.in_degree.len()
    }

    /// Returns `(remaining, Some(remaining))`.
    pub fn size_hint(&self) -> (r: (usize, Option<usize>))
        requires
            self.wf(),
        ensures
            r.0 == self.pending_set().len(),
            r.1 == Some(r.0),
    {
        let n = self.remaining();
        (n, Some(n))
    }

    /// Returns `true` once `next` has returned `None` while keys remained.
    pub fn is_stalled(&self) -> (r: bool)
        ensures
            r == self.stalled_view(),
    {
        self.stalled
    }

    /// Returns whether the drain completed or stalled due to a cycle.
    pub fn completion(&self) -> (r: DrainCompletion)
        requires
            self.wf(),
        ensures
            r == if self.stalled_view() {
                DrainCompletion::Stalled { remaining: self.pending_set().len() as usize }
            } else {
                DrainCompletion::Complete
            },
    {
        if self.stalled {
            DrainCompletion::Stalled { remaining: self.remaining() }
        } else {
            DrainCompletion::Complete
        }
    }

    /// Yields the first ready key, or `None` when no key is ready (marking
    /// the drain stalled if keys remain).
    pub fn next(&mut self) -> (r: Option<K>)
        requires
            old(self).wf(),
        ensures
            final(self).wf(),
            final(self).graph_view() == old(self).graph_view(),
            final(self).channel_view() == old(self).channel_view(),
            match r {
                None => {
                    &&& forall|k: K| !#[trigger] old(self).is_ready(k)
                    &&& final(self).pending_set() == old(self).pending_set()
                    &&& final(self).queue_view() == old(self).queue_view()
                    &&& final(self).stalled_view() == (old(self).stalled_view() || old(self).pending_set().len() > 0)
                },
                Some(k) => {
                    &&& old(self).queue_view().len() > 0
                    &&& k == old(self).queue_view()[0]
                    &&& old(self).is_ready(k)
                    &&& final(self).pending_set() == old(self).pending_set().remove(k)
                    &&& final(self).queue_view() == old(self).queue_view().drop_first() + old(self).graph_view().rdeps(
                        k, old(self).channel_view().idx()).filter(ready_pred(old(self).graph_view(),
                        old(self).channel_view().idx(), final(self).pending_set()))
                    &&& final(self).stalled_view() == old(self).stalled_view()
                },
            },
    {
        let ghost c = self.channel.idx();
        let ghost p0 = self.pending_keys@;
        if self.head >= self.queue.len() {
            proof {
                self.lemma_len();
            }
            if self.in_degree.len() > 0 {
                self.stalled = true;
            }
            proof {
                assert forall|k: K| !#[trigger] old(self).is_ready(k) by {
                    if old(self).is_ready(k) {
                        assert(old(self).queue_view().contains(k));
                    }
                }
            }
            return None;
        }
        let ghost old_queue = self.queue_view();
        let key = self.queue[self.head];
        self.head = self.head + 1;
        proof {
            assert(old_queue[0] == key);
            assert(old_queue.contains(key));
            assert(self.queue_view() == old_queue.drop_first());
        }
        let ki = key.index();
        let _ = self.in_degree.remove(ki);
        proof {
            assert(p0.contains(key));
            self.pending_keys@ = p0.remove(key);
            self.graph.lemma_wf_facts();
            assert forall|k: K| #[trigger] self.pending_keys@.contains(k) <==> self.in_degree.contents().dom().contains(k.spec_index()) by {
                if k.spec_index() == ki {
                    K::lemma_index_injective(k, key);
                }
            }
            assert forall|i: usize| #[trigger] self.in_degree.contents().dom().contains(i)
                implies exists|k: K| self.pending_keys@.contains(k) && k.spec_index() == i by {
                assert(old(self).in_degree.contents().dom().contains(i));
                let k = choose|k: K| p0.contains(k) && k.spec_index() == i;
                assert(self.pending_keys@.contains(k));
            }
            assert forall|k: K| #[trigger] self.pending_keys@.contains(k) && self.graph.deps(k, c).contains(key)
                implies count_in(self.graph.deps(k, c), p0) >= 1 by {
                lemma_count_zero(self.graph.deps(k, c), p0);
            }
            assert forall|k: K| #[trigger] self.queue_view().contains(k)
                <==> (self.pending_keys@.contains(k) && self.in_degree.contents()[k.spec_index()] == 0) by {
                if old_queue.drop_first().contains(k) {
                    let m = choose|m: int| 0 <= m < old_queue.drop_first().len() && old_queue.drop_first()[m] == k;
                    assert(old_queue[m + 1] == k);
                    assert(k != key) by {
                        assert(old_queue[0] == key);
                        assert(old_queue.no_duplicates());
                        assert(old_queue[0] != old_queue[m + 1]);
                    }
                    assert(old_queue.contains(k));
                    assert(old(self).is_ready(k));
                    assert(p0.contains(k));
                    assert(old(self).in_degree.contents()[k.spec_index()] == 0);
                    assert(k.spec_index() != ki) by {
                        if k.spec_index() == ki {
                            K::lemma_index_injective(k, key);
                        }
                    }
                    assert(self.pending_keys@.contains(k));
                    assert(self.in_degree.contents()[k.spec_index()] == old(self).in_degree.contents()[k.spec_index()]);
                }
                if self.pending_keys@.contains(k) && self.in_degree.contents()[k.spec_index()] == 0 {
                    assert(k != key);
                    assert(k.spec_index() != ki) by {
                        if k.spec_index() == ki {
                            K::lemma_index_injective(k, key);
                        }
                    }
                    assert(self.in_degree.contents()[k.spec_index()] == old(self).in_degree.contents()[k.spec_index()]);
                    assert(p0.contains(k));
                    assert(old(self).is_ready(k));
                    assert(old_queue.contains(k));
                    let m = choose|m: int| 0 <= m < old_queue.len() && old_queue[m] == k;
                    assert(m != 0);
                    assert(old_queue.drop_first()[m - 1] == k);
                }
            }
        }
        let ghost p1 = self.pending_keys@;
        let ghost pred = ready_pred(*self.graph, c, p1);
        let ghost base_queue = self.queue_view();
        let dependents = self.graph.dependents(key, self.channel);
        let mut j: usize = 0;
        while j < dependents.len()
            invariant
                self.graph.wf(),
                self.graph == old(self).graph,
                self.channel == old(self).channel,
                self.stalled == old(self).stalled,
                c == self.channel.idx(),
                pred == ready_pred(*self.graph, c, p1),
                p0.contains(key),
                p1 == p0.remove(key),
                self.pending_keys@ == p1,
                p1.finite(),
                self.head <= self.queue@.len(),
                dependents@ == self.graph.rdeps(key, c),
                dependents@.no_duplicates(),
                j <= dependents@.len(),
                self.queue_view() == base_queue + dependents@.subrange(0, j as int).filter(pred),
                forall|k: K| #[trigger] p1.contains(k) <==> self.in_degree.contents().dom().contains(k.spec_index()),
                forall|i: usize| #[trigger] self.in_degree.contents().dom().contains(i)
                    ==> exists|k: K| p1.contains(k) && k.spec_index() == i,
                forall|k: K| #[trigger] p1.contains(k) ==> self.in_degree.contents()[k.spec_index()]
                    == count_in(self.graph.deps(k, c), p0) - if dependents@.subrange(0, j as int).contains(k) { 1int } else { 0int },
                forall|k: K| #[trigger] p1.contains(k) && self.graph.deps(k, c).contains(key)
                    && !dependents@.subrange(0, j as int).contains(k) ==> count_in(self.graph.deps(k, c), p0) >= 1,
                self.queue_view().no_duplicates(),
                forall|k: K| #[trigger] self.queue_view().contains(k)
                    <==> (p1.contains(k) && self.in_degree.contents()[k.spec_index()] == 0),
            decreases dependents@.len() - j,
        {
            let dependent = dependents[j];
            let di = dependent.index();
            let ghost before_queue = self.queue_view();
            let ghost before_map = self.in_degree.contents();
            proof {
                self.graph.lemma_wf_facts();
                assert(dependents@.subrange(0, j + 1) == dependents@.subrange(0, j as int).push(dependent));
                assert(dependents@.subrange(0, j + 1).drop_last() == dependents@.subrange(0, j as int));
                lemma_push_contains(dependents@.subrange(0, j as int), dependent);
                assert(!dependents@.subrange(0, j as int).contains(dependent)) by {
                    if dependents@.subrange(0, j as int).contains(dependent) {
                        let m = choose|m: int| 0 <= m < j && dependents@.subrange(0, j as int)[m] == dependent;
                        assert(dependents@[m] == dependents@[j as int]);
                    }
                }
                assert(self.graph.rdeps(key, c).contains(dependent));
                assert(self.graph.deps(dependent, c).contains(key));
                lemma_count_remove(self.graph.deps(dependent, c), p0, key);
            }
            match self.in_degree.get(di) {
                Some(deg) => {
                    proof {
                        assert(p1.contains(dependent));
                    }
                    let nd = deg - 1;
                    let _ = self.in_degree.insert(di, nd);
                    if nd == 0 {
                        proof {
                            assert(!before_queue.contains(dependent));
                            lemma_push_fresh(before_queue, dependent);
                            assert(pred(dependent));
                        }
                        self.queue.push(dependent);
                        proof {
                            assert(self.queue_view() == before_queue.push(dependent));
                        }
                    } else {
                        proof {
                            assert(!pred(dependent));
                        }
                    }
                    proof {
                        assert(self.in_degree.contents().dom() =~= before_map.dom());
                        assert forall|k: K| #[trigger] self.queue_view().contains(k)
                            <==> (p1.contains(k) && self.in_degree.contents()[k.spec_index()] == 0) by {
                            if k.spec_index() == di {
                                K::lemma_index_injective(k, dependent);
                            }
                            lemma_push_contains(before_queue, dependent);
                        }
                        assert forall|k: K| #[trigger] p1.contains(k) implies self.in_degree.contents()[k.spec_index()]
                            == count_in(self.graph.deps(k, c), p0) - if dependents@.subrange(0, j + 1).contains(k) { 1int } else { 0int } by {
                            if k.spec_index() == di {
                                K::lemma_index_injective(k, dependent);
                            }
                        }
                    }
                },
                None => {
                    proof {
                        assert(!p1.contains(dependent));
                        assert(!pred(dependent));
                    }
                },
            }
            proof {
                dependents@.subrange(0, j as int).lemma_filter_push(dependent, pred);
                assert(dependents@.subrange(0, j + 1).filter(pred) == if pred(dependent) {
                    dependents@.subrange(0, j as int).filter(pred).push(dependent)
                } else {
                    dependents@.subrange(0, j as int).filter(pred)
                });
            }
            j += 1;
        }
        proof {
            assert(dependents@.subrange(0, j as int) == dependents@);
            self.graph.lemma_wf_facts();
            assert forall|k: K| #[trigger] p1.contains(k) implies self.in_degree.contents()[k.spec_index()]
                == count_in(self.graph.deps(k, c), p1) by {
                lemma_count_remove(self.graph.deps(k, c), p0, key);
                assert(self.graph.deps(k, c).contains(key) == self.graph.rdeps(key, c).contains(k));
            }
            assert forall|k: K| #[trigger] self.queue_view().contains(k) <==> self.is_ready(k) by {
                if p1.contains(k) {
                    assert(self.in_degree.contents()[k.spec_index()] == count_in(self.graph.deps(k, c), p1));
                }
            }
        }
        Some(key)
    }

    /// Yields all remaining keys and reports whether the drain completed.
    pub fn collect_with_completion(self) -> (r: (Vec<K>, DrainCompletion))
        requires
            self.wf(),
        ensures
            is_topological(self.graph_view(), self.channel_view().idx(), self.pending_set(), r.0@),
            is_stuck(self.graph_view(), self.channel_view().idx(), self.pending_set().difference(r.0@.to_set())),
            r.1 == completion_after(self.stalled_view(), self.pending_set(), r.0@),
    {
        let mut this = self;
        let out = this.drain_all();
        let completion = this.completion();
        (out, completion)
    }

    /// Yields every remaining key into a vector (the drain is exhausted).
    pub fn drain_all(&mut self) -> (out: Vec<K>)
        requires
            old(self).wf(),
        ensures
            final(self).wf(),
            is_topological(old(self).graph_view(), old(self).channel_view().idx(), old(self).pending_set(), out@),
            is_stuck(old(self).graph_view(), old(self).channel_view().idx(), old(self).pending_set().difference(out@.to_set())),
            final(self).pending_set() == old(self).pending_set().difference(out@.to_set()),
            final(self).stalled_view() == (old(self).stalled_view() || final(self).pending_set().len() > 0),
    {
        let ghost g = self.graph_view();
        let ghost c = self.channel_view().idx();
        let ghost p0 = self.pending_set();
        let ghost s0 = self.stalled_view();
        let mut out: Vec<K> = Vec::new();
        proof {
            assert(p0.difference(out@.to_set()) =~= p0);
        }
        loop
            invariant_except_break
                self.stalled_view() == s0,
            invariant
                self.wf(),
                self.graph_view() == g,
                self.channel_view().idx() == c,
                self.pending_set() == p0.difference(out@.to_set()),
                p0.finite(),
                p0 == old(self).pending_set(),
                s0 == old(self).stalled_view(),
                g == old(self).graph_view(),
                c == old(self).channel_view().idx(),
                is_topological(g, c, p0, out@),
            ensures
                is_stuck(g, c, p0.difference(out@.to_set())),
                self.stalled_view() == (s0 || p0.difference(out@.to_set()).len() > 0),
            decreases self.pending_set().len(),
        {
            let ghost before = *self;
            let ghost old_out = out@;
            match self.next() {
                None => {
                    proof {
                        assert forall|k: K| #[trigger] p0.difference(out@.to_set()).contains(k)
                            implies count_in(g.deps(k, c), p0.difference(out@.to_set())) > 0 by {
                            assert(!before.is_ready(k));
                        }
                    }
                    break;
                },
                Some(k) => {
                    proof {
                        lemma_count_zero(g.deps(k, c), before.pending_set());
                        assert(!old_out.contains(k));
                        lemma_push_fresh(old_out, k);
                    }
                    out.push(k);
                    proof {
                        assert(out@.subrange(0, old_out.len() as int) == old_out);
                        assert forall|i: int| 0 <= i < out@.len() implies p0.contains(#[trigger] out@[i]) by {
                            if i < old_out.len() {
                                assert(out@[i] == old_out[i]);
                            }
                        }
                        assert forall|i: int, d: K| 0 <= i < out@.len() && #[trigger] g.deps(out@[i], c).contains(d) && p0.contains(d)
                            implies out@.subrange(0, i).contains(d) by {
                            if i < old_out.len() {
                                assert(out@[i] == old_out[i]);
                                assert(out@.subrange(0, i) == old_out.subrange(0, i));
                            } else {
                                assert(!before.pending_set().contains(d));
                                assert(old_out.to_set().contains(d));
                            }
                        }
                        lemma_push_contains(old_out, k);
                        assert(self.pending_set() =~= p0.difference(out@.to_set()));
                        vstd::set_lib::lemma_len_subset(before.pending_set().remove(k), before.pending_set());
                    }
                },
            }
        }
        out
    }
}

/// `s` without repeated values, keeping first occurrences in order.
pub open spec fn dedup_seq<K>(s: Seq<K>) -> Seq<K>
    decreases s.len(),
{
    if s.len() == 0 {
        Seq::empty()
    } else {
        let d = dedup_seq(s.drop_last());
        if d.contains(s.last()) {
            d
        } else {
            d.push(s.last())
        }
    }
}

/// [`dedup_seq`] keeps exactly the values of `s`.
pub proof fn lemma_dedup_seq_contains<K>(s: Seq<K>)
    ensures
        forall|x: K| #[trigger] dedup_seq(s).contains(x) == s.contains(x),
    decreases s.len(),
{
    if s.len() > 0 {
        lemma_dedup_seq_contains(s.drop_last());
        assert(s.drop_last().push(s.last()) == s);
        lemma_push_contains(s.drop_last(), s.last());
        lemma_push_contains(dedup_seq(s.drop_last()), s.last());
    }
}

/// Filtering a duplicate-free sequence keeps it duplicate-free.
pub proof fn lemma_filter_no_dup<K>(s: Seq<K>, pred: spec_fn(K) -> bool)
    requires
        s.no_duplicates(),
    ensures
        s.filter(pred).no_duplicates(),
        forall|x: K| #[trigger] s.filter(pred).contains(x) == (s.contains(x) && pred(x)),
    decreases s.len(),
{
    if s.len() > 0 {
        let t = s.drop_last();
        lemma_filter_no_dup(t, pred);
        assert(t.push(s.last()) == s);
        lemma_push_contains(t, s.last());
        assert(!t.contains(s.last())) by {
            if t.contains(s.last()) {
                let j = choose|j: int| 0 <= j < t.len() && t[j] == s.last();
                assert(s[j] == s[s.len() - 1]);
            }
        }
        t.lemma_filter_push(s.last(), pred);
        assert(s.filter(pred) == if pred(s.last()) { t.filter(pred).push(s.last()) } else { t.filter(pred) });
        if pred(s.last()) {
            assert(!t.filter(pred).contains(s.last()));
            lemma_push_fresh(t.filter(pred), s.last());
        }
    }
}

/// Deterministic topologically sorted drain (Kahn's algorithm).
///
/// Yields each pending key only after all of its pending dependencies, and
/// when several keys are ready at once, the one with the smallest key first.
/// In-degrees are kept in dense `Vec`s indexed by [`DenseKey::index`].
#[verifier::reject_recursive_types(K)]
pub struct DrainSortedDeterministic<'a, K> {
    graph: &'a DirtyGraph<K>,
    channel: Channel,
    /// Pending keys whose pending in-degree is zero.
    ready: Vec<K>,
    /// Pending in-degree, indexed by key index.
    in_degree: Vec<usize>,
    /// Whether the key with that index is still pending.
    pending: Vec<bool>,
    /// Number of pending keys.
    remaining: usize,
    stalled: bool,
    pending_keys: Ghost<Set<K>>,
}

impl<'a, K: DenseKey> DrainSortedDeterministic<'a, K> {
    /// A stalled drain yields nothing more: keys are still pending and none
    /// of them is ready.
    pub proof fn lemma_stalled_stays(self)
        requires
            self.wf(),
            self.stalled_view(),
        ensures
            self.pending_set().len() > 0,
            forall|k: K| !#[trigger] self.is_ready(k),
    {
        assert forall|k: K| !#[trigger] self.is_ready(k) by {
            if self.is_ready(k) {
                assert(self.ready@.contains(k));
            }
        }
    }

    /// A drain with keys pending and none ready, as when it stalls, holds a
    /// dependency cycle among its pending keys.
    pub proof fn lemma_stall_holds_cycle(self)
        requires
            self.wf(),
            self.pending_set().len() > 0,
            forall|k: K| !#[trigger] self.is_ready(k),
        ensures
            exists|k: K| #[trigger] self.pending_set().contains(k) && self.graph_view().depends_transitively(self.channel_view().idx(), k, k),
    {
        self.lemma_pending_finite(self.pending_set().choose());
        let g = self.graph_view();
        let c = self.channel_view().idx();
        let p = self.pending_set();
        assert forall|k: K| #[trigger] p.contains(k) implies count_in(g.deps(k, c), p) > 0 by {
            assert(!self.is_ready(k));
        }
        lemma_stuck_has_cycle(g, c, p);
    }

    /// The keys still to drain are finitely many; a yielded key, which was
    /// ready and so pending, leaves exactly one fewer.
    pub proof fn lemma_pending_finite(self, k: K)
        requires
            self.wf(),
        ensures
            self.pending_set().finite(),
            self.is_ready(k) ==> self.pending_set().remove(k).len() == self.pending_set().len() - 1,
    {
    }

    /// The dependency graph being drained.
    pub closed spec fn graph_view(self) -> DirtyGraph<K> {
        *self.graph
    }

    /// The channel being drained.
    pub closed spec fn channel_view(self) -> Channel {
        self.channel
    }

    /// Keys not yet yielded.
    pub closed spec fn pending_set(self) -> Set<K> {
        self.pending_keys@
    }

    /// Whether the drain has stalled.
    pub closed spec fn stalled_view(self) -> bool {
        self.stalled
    }

    /// The number of pending dependencies of `k`.
    pub open spec fn pending_deps(self, k: K) -> nat {
        count_in(self.graph_view().deps(k, self.channel_view().idx()), self.pending_set())
    }

    /// `k` is pending and all of its dependencies have been yielded.
    pub open spec fn is_ready(self, k: K) -> bool {
        self.pending_set().contains(k) && self.pending_deps(k) == 0
    }

    /// Internal consistency of the dense tables with the pending set.
    pub closed spec fn wf(self) -> bool {
        &&& self.graph.wf()
        &&& self.pending_keys@.finite()
        &&& self.remaining == self.pending_keys@.len()
        &&& self.in_degree@.len() == self.pending@.len()
        &&& forall|k: K| #[trigger] self.pending_keys@.contains(k)
            <==> (k.spec_index() < self.pending@.len() && self.pending@[k.spec_index() as int])
        &&& forall|k: K| #[trigger] self.pending_keys@.contains(k)
            ==> self.in_degree@[k.spec_index() as int] == self.pending_deps(k)
        &&& self.ready@.no_duplicates()
        &&& forall|k: K| #[trigger] self.ready@.contains(k) <==> self.is_ready(k)
        &&& self.stalled ==> self.ready@.len() == 0 && self.pending_keys@.len() > 0
    }

    /// Builds a drain over `dirty_keys` (duplicates ignored) in `channel`.
    pub fn from_iter_with_capacity(dirty_keys: Vec<K>, cap: usize, graph: &'a DirtyGraph<K>, channel: Channel) -> (d: Self)
        requires
            graph.wf(),
            forall|i: int| 0 <= i < dirty_keys@.len() ==> (#[trigger] dirty_keys@[i]).spec_index() < usize::MAX,
        ensures
            d.wf(),
            d.pending_set() == dirty_keys@.to_set(),
            d.graph_view() == *graph,
            d.channel_view() == channel,
            !d.stalled_view(),
    {
        let ghost c = channel.idx();
        let mut pending: Vec<bool> = Vec::new();
        let mut unique: Vec<K> = Vec::with_capacity(cap);
        let mut i: usize = 0;
        while i < dirty_keys.len()
            invariant
                i <= dirty_keys@.len(),
                forall|m: int| 0 <= m < dirty_keys@.len() ==> (#[trigger] dirty_keys@[m]).spec_index() < usize::MAX,
                unique@.no_duplicates(),
                unique@.to_set() == dirty_keys@.subrange(0, i as int).to_set(),
                forall|k: K| #[trigger] unique@.contains(k)
                    <==> (k.spec_index() < pending@.len() && pending@[k.spec_index() as int]),
            decreases dirty_keys@.len() - i,
        {
            let key = dirty_keys[i];
            let idx = key.index();
            let ghost old_unique = unique@;
            let ghost old_pending = pending@;
            if idx >= pending.len() {
                let target_len = prepare_dense_growth(&mut pending, idx);
                while pending.len() < target_len
                    invariant
                        target_len == idx + 1,
                        old_pending.len() <= pending@.len() <= target_len,
                        forall|m: int| 0 <= m < old_pending.len() ==> #[trigger] pending@[m] == old_pending[m],
                        forall|m: int| old_pending.len() <= m < pending@.len() ==> !#[trigger] pending@[m],
                    decreases target_len - pending.len(),
                {
                    pending.push(false);
                }
            }
            proof {
                assert forall|k: K| #[trigger] unique@.contains(k)
                    <==> (k.spec_index() < pending@.len() && pending@[k.spec_index() as int]) by {
                    assert(old_unique.contains(k) <==> (k.spec_index() < old_pending.len() && old_pending[k.spec_index() as int]));
                }
                assert(dirty_keys@.subrange(0, i + 1) == dirty_keys@.subrange(0, i as int).push(key));
                lemma_push_contains(dirty_keys@.subrange(0, i as int), key);
            }
            if !pending[idx] {
                proof {
                    assert(!unique@.contains(key));
                    lemma_push_fresh(unique@, key);
                }
                pending.set(idx, true);
                unique.push(key);
                proof {
                    assert forall|k: K| #[trigger] unique@.contains(k)
                        <==> (k.spec_index() < pending@.len() && pending@[k.spec_index() as int]) by {
                        if k.spec_index() == idx {
                            K::lemma_index_injective(k, key);
                        }
                        assert(old_unique.contains(k) <==> (k.spec_index() < old_pending.len() && old_pending[k.spec_index() as int]));
                    }
                    assert forall|y: K| #[trigger] unique@.to_set().contains(y) == dirty_keys@.subrange(0, i + 1).to_set().contains(y) by {
                        assert(old_unique.to_set().contains(y) == dirty_keys@.subrange(0, i as int).to_set().contains(y));
                    }
                    assert(unique@.to_set() =~= dirty_keys@.subrange(0, i + 1).to_set());
                }
            } else {
                proof {
                    assert(unique@.contains(key));
                    assert forall|y: K| #[trigger] unique@.to_set().contains(y) == dirty_keys@.subrange(0, i + 1).to_set().contains(y) by {
                        assert(old_unique.to_set().contains(y) == dirty_keys@.subrange(0, i as int).to_set().contains(y));
                    }
                    assert(unique@.to_set() =~= dirty_keys@.subrange(0, i + 1).to_set());
                }
            }
            i += 1;
        }
        proof {
            assert(dirty_keys@.subrange(0, i as int) == dirty_keys@);
        }
        let ghost pset = unique@.to_set();
        // Pending in-degrees.
        let mut in_degree: Vec<usize> = Vec::new();
        let mut m: usize = 0;
        while m < pending.len()
            invariant
                m <= pending@.len(),
                in_degree@.len() == m,
                forall|q: int| 0 <= q < m ==> #[trigger] in_degree@[q] == 0,
            decreases pending@.len() - m,
        {
            in_degree.push(0);
            m += 1;
        }
        proof {
            assert forall|q: int| 0 <= q < unique@.len() implies (#[trigger] unique@[q]).spec_index() < in_degree@.len() by {
                assert(unique@.contains(unique@[q]));
            }
        }
        let mut u: usize = 0;
        while u < unique.len()
            invariant
                graph.wf(),
                c == channel.idx(),
                u <= unique@.len(),
                unique@.no_duplicates(),
                pset == unique@.to_set(),
                in_degree@.len() == pending@.len(),
                forall|k: K| #[trigger] unique@.contains(k)
                    <==> (k.spec_index() < pending@.len() && pending@[k.spec_index() as int]),
                forall|q: int| 0 <= q < unique@.len() ==> (#[trigger] unique@[q]).spec_index() < in_degree@.len(),
                forall|q: int| 0 <= q < u ==> #[trigger] in_degree@[unique@[q].spec_index() as int]
                    == count_in(graph.deps(unique@[q], c), pset),
                forall|q: int| u <= q < unique@.len() ==> #[trigger] in_degree@[unique@[q].spec_index() as int] == 0,
            decreases unique@.len() - u,
        {
            let key = unique[u];
            let ki = key.index();
            proof {
                assert(unique@.contains(key));
            }
            let deps = graph.dependencies(key, channel);
            let mut j: usize = 0;
            while j < deps.len()
                invariant
                    graph.wf(),
                    c == channel.idx(),
                    u < unique@.len(),
                    key == unique@[u as int],
                    ki == key.spec_index(),
                    ki < in_degree@.len(),
                    unique@.no_duplicates(),
                    pset == unique@.to_set(),
                    in_degree@.len() == pending@.len(),
                    deps@ == graph.deps(key, c),
                    j <= deps@.len(),
                    forall|k: K| #[trigger] unique@.contains(k)
                        <==> (k.spec_index() < pending@.len() && pending@[k.spec_index() as int]),
                    in_degree@[ki as int] == count_in(deps@.subrange(0, j as int), pset),
                    forall|q: int| 0 <= q < unique@.len() ==> (#[trigger] unique@[q]).spec_index() < in_degree@.len(),
                    forall|q: int| 0 <= q < u ==> #[trigger] in_degree@[unique@[q].spec_index() as int]
                        == count_in(graph.deps(unique@[q], c), pset),
                    forall|q: int| u < q < unique@.len() ==> #[trigger] in_degree@[unique@[q].spec_index() as int] == 0,
                decreases deps@.len() - j,
            {
                let dep = deps[j];
                let di = dep.index();
                proof {
                    lemma_count_prefix(deps@, pset, j as int);
                    lemma_count_le(deps@.subrange(0, j as int), pset);
                    assert(pset.contains(dep) == unique@.contains(dep));
                }
                if di < pending.len() && pending[di] {
                    in_degree.set(ki, in_degree[ki] + 1);
                }
                proof {
                    assert forall|q: int| 0 <= q < u implies #[trigger] in_degree@[unique@[q].spec_index() as int]
                        == count_in(graph.deps(unique@[q], c), pset) by {
                        if unique@[q].spec_index() == ki {
                            K::lemma_index_injective(unique@[q], key);
                        }
                    }
                    assert forall|q: int| u < q < unique@.len() implies #[trigger] in_degree@[unique@[q].spec_index() as int] == 0 by {
                        if unique@[q].spec_index() == ki {
                            K::lemma_index_injective(unique@[q], key);
                        }
                    }
                }
                j += 1;
            }
            proof {
                assert(deps@.subrange(0, j as int) == deps@);
            }
            u += 1;
        }
        // Initially ready keys, in input order.
        let mut ready: Vec<K> = Vec::new();
        let mut u: usize = 0;
        while u < unique.len()
            invariant
                graph.wf(),
                c == channel.idx(),
                u <= unique@.len(),
                unique@.no_duplicates(),
                pset == unique@.to_set(),
                in_degree@.len() == pending@.len(),
                forall|k: K| #[trigger] unique@.contains(k)
                    <==> (k.spec_index() < pending@.len() && pending@[k.spec_index() as int]),
                forall|q: int| 0 <= q < unique@.len() ==> (#[trigger] unique@[q]).spec_index() < in_degree@.len(),
                forall|q: int| 0 <= q < unique@.len() ==> #[trigger] in_degree@[unique@[q].spec_index() as int]
                    == count_in(graph.deps(unique@[q], c), pset),
                ready@.no_duplicates(),
                forall|k: K| #[trigger] ready@.contains(k)
                    <==> (unique@.subrange(0, u as int).contains(k) && count_in(graph.deps(k, c), pset) == 0),
            decreases unique@.len() - u,
        {
            let key = unique[u];
            proof {
                assert(unique@.subrange(0, u + 1) == unique@.subrange(0, u as int).push(key));
                lemma_push_contains(unique@.subrange(0, u as int), key);
                assert(!unique@.subrange(0, u as int).contains(key)) by {
                    if unique@.subrange(0, u as int).contains(key) {
                        let q = choose|q: int| 0 <= q < u && unique@.subrange(0, u as int)[q] == key;
                        assert(unique@[q] == unique@[u as int]);
                    }
                }
            }
            if in_degree[key.index()] == 0 {
                proof {
                    lemma_push_fresh(ready@, key);
                }
                ready.push(key);
            }
            u += 1;
        }
        proof {
            assert(unique@.subrange(0, u as int) == unique@);
            unique@.unique_seq_to_set();
        }
        let d = DrainSortedDeterministic {
            graph,
            channel,
            ready,
            in_degree,
            pending,
            remaining: unique.len(),
            stalled: false,
            pending_keys: Ghost(pset),
        };
        proof {
            assert forall|k: K| #[trigger] d.pending_keys@.contains(k)
                implies d.in_degree@[k.spec_index() as int] == d.pending_deps(k) by {
                let q = choose|q: int| 0 <= q < unique@.len() && unique@[q] == k;
                assert(in_degree@[unique@[q].spec_index() as int] == count_in(graph.deps(unique@[q], c), pset));
            }
        }
        d
    }

    /// Returns `true` if no key is ready to be yielded.
    ///
    /// When this is `true` while keys remain, the drain has stalled on a cycle.
    pub fn is_empty(&self) -> (r: bool)
        requires
            self.wf(),
        ensures
            r == (forall|k: K| !#[trigger] self.is_ready(k)),
    {
        if self.ready.len() == 0 {
            proof {
                assert forall|k: K| !#[trigger] self.is_ready(k) by {
                    if self.is_ready(k) {
                        assert(self.ready@.contains(k));
                    }
                }
            }
            true
        } else {
            proof {
                assert(self.ready@.contains(self.ready@[0]));
            }
            false
        }
    }

    /// Returns the number of keys not yet yielded.
    pub fn remaining(&self) -> (r: usize)
        requires
            self.wf(),
        ensures
            r == self.pending_set().len(),
    {
        self.remaining
    }

    /// Returns `(remaining, Some(remaining))`.
    pub fn size_hint(&self) -> (r: (usize, Option<usize>))
        requires
            self.wf(),
        ensures
            r.0 == self.pending_set().len(),
            r.1 == Some(r.0),
    {
        let n = self.remaining();
        (n, Some(n))
    }

    /// Returns `true` once `next` has returned `None` while keys remained.
    pub fn is_stalled(&self) -> (r: bool)
        ensures
            r == self.stalled_view(),
    {
        self.stalled
    }

    /// Returns whether the drain completed or stalled due to a cycle.
    pub fn completion(&self) -> (r: DrainCompletion)
        requires
            self.wf(),
        ensures
            r == if self.stalled_view() {
                DrainCompletion::Stalled { remaining: self.pending_set().len() as usize }
            } else {
                DrainCompletion::Complete
            },
    {
        if self.stalled {
            DrainCompletion::Stalled { remaining: self.remaining }
        } else {
            DrainCompletion::Complete
        }
    }


    /// Yields all remaining keys and reports whether the drain completed.
    pub fn collect_with_completion(self) -> (r: (Vec<K>, DrainCompletion))
        requires
            self.wf(),
        ensures
            is_topological(self.graph_view(), self.channel_view().idx(), self.pending_set(), r.0@),
            forall|i: int, k: K| 0 <= i < r.0@.len() && #[trigger] ready_in(self.graph_view(), self.channel_view().idx(),
                self.pending_set().difference(r.0@.subrange(0, i).to_set()), k)
                ==> (#[trigger] r.0@[i]).spec_index() <= k.spec_index(),
            is_stuck(self.graph_view(), self.channel_view().idx(), self.pending_set().difference(r.0@.to_set())),
            r.1 == completion_after(self.stalled_view(), self.pending_set(), r.0@),
            r.0@ == smallest_first_listing(self.graph_view(), self.channel_view().idx(), self.pending_set()),
    {
        let mut this = self;
        let ghost g = this.graph_view();
        let ghost c = this.channel_view().idx();
        let ghost p0 = this.pending_set();
        let ghost s0 = this.stalled_view();
        let mut out: Vec<K> = Vec::new();
        proof {
            assert(p0.difference(out@.to_set()) =~= p0);
        }
        loop
            invariant_except_break
                this.stalled_view() == s0,
            invariant
                this.wf(),
                this.graph_view() == g,
                this.channel_view().idx() == c,
                this.pending_set() == p0.difference(out@.to_set()),
                p0.finite(),
                is_topological(g, c, p0, out@),
                forall|i: int, k: K| 0 <= i < out@.len() && #[trigger] ready_in(g, c, p0.difference(out@.subrange(0, i).to_set()), k)
                    ==> (#[trigger] out@[i]).spec_index() <= k.spec_index(),
            ensures
                is_stuck(g, c, p0.difference(out@.to_set())),
                this.stalled_view() == (s0 || p0.difference(out@.to_set()).len() > 0),
            decreases this.pending_set().len(),
        {
            let ghost before = this;
            let ghost old_out = out@;
            match this.next() {
                None => {
                    proof {
                        assert forall|k: K| #[trigger] p0.difference(out@.to_set()).contains(k)
                            implies count_in(g.deps(k, c), p0.difference(out@.to_set())) > 0 by {
                            assert(!before.is_ready(k));
                        }
                    }
                    break;
                },
                Some(k) => {
                    proof {
                        lemma_count_zero(g.deps(k, c), before.pending_set());
                        assert(!old_out.contains(k));
                        lemma_push_fresh(old_out, k);
                    }
                    out.push(k);
                    proof {
                        assert(out@.subrange(0, old_out.len() as int) == old_out);
                        assert forall|i: int| 0 <= i < out@.len() implies p0.contains(#[trigger] out@[i]) by {
                            if i < old_out.len() {
                                assert(out@[i] == old_out[i]);
                            }
                        }
                        assert forall|i: int, d: K| 0 <= i < out@.len() && #[trigger] g.deps(out@[i], c).contains(d) && p0.contains(d)
                            implies out@.subrange(0, i).contains(d) by {
                            if i < old_out.len() {
                                assert(out@[i] == old_out[i]);
                                assert(out@.subrange(0, i) == old_out.subrange(0, i));
                            } else {
                                assert(!before.pending_set().contains(d));
                                assert(old_out.to_set().contains(d));
                            }
                        }
                        assert forall|i: int, k2: K| 0 <= i < out@.len() && #[trigger] ready_in(g, c, p0.difference(out@.subrange(0, i).to_set()), k2)
                            implies (#[trigger] out@[i]).spec_index() <= k2.spec_index() by {
                            if i < old_out.len() {
                                assert(out@[i] == old_out[i]);
                                assert(out@.subrange(0, i) == old_out.subrange(0, i));
                            } else {
                                assert(out@.subrange(0, i) == old_out);
                                assert(before.is_ready(k2));
                            }
                        }
                        lemma_push_contains(old_out, k);
                        assert(this.pending_set() =~= p0.difference(out@.to_set()));
                        vstd::set_lib::lemma_len_subset(before.pending_set().remove(k), before.pending_set());
                    }
                },
            }
        }
        proof {
            assert(is_smallest_first_listing(g, c, p0, out@));
            let chosen = smallest_first_listing(g, c, p0);
            assert(is_smallest_first_listing(g, c, p0, chosen));
            lemma_smallest_first_unique(g, c, p0, chosen, out@);
        }
        let completion = this.completion();
        (out, completion)
    }

    /// Yields the ready key with the smallest index, which is the smallest
    /// ready key (`DenseKey::lemma_index_order`), or `None` when no key is
    /// ready (marking the drain stalled if keys remain).
    pub fn next(&mut self) -> (r: Option<K>)
        requires
            old(self).wf(),
        ensures
            final(self).wf(),
            final(self).graph_view() == old(self).graph_view(),
            final(self).channel_view() == old(self).channel_view(),
            match r {
                None => {
                    &&& forall|k: K| !#[trigger] old(self).is_ready(k)
                    &&& final(self).pending_set() == old(self).pending_set()
                    &&& final(self).stalled_view() == (old(self).stalled_view() || old(self).pending_set().len() > 0)
                },
                Some(k) => {
                    &&& old(self).is_ready(k)
                    &&& forall|k2: K| #[trigger] old(self).is_ready(k2) ==> k.spec_index() <= k2.spec_index()
                    &&& final(self).pending_set() == old(self).pending_set().remove(k)
                    &&& final(self).stalled_view() == old(self).stalled_view()
                },
            },
    {
        let ghost c = self.channel.idx();
        let ghost p0 = self.pending_keys@;
        if self.ready.len() == 0 {
            if self.remaining > 0 {
                self.stalled = true;
            }
            proof {
                assert forall|k: K| !#[trigger] old(self).is_ready(k) by {
                    if old(self).is_ready(k) {
                        assert(self.ready@.contains(k));
                    }
                }
            }
            return None;
        }
        // Smallest ready key.
        let mut best: usize = 0;
        let mut q: usize = 1;
        while q < self.ready.len()
            invariant
                0 < self.ready@.len(),
                best < self.ready@.len(),
                1 <= q <= self.ready@.len(),
                forall|m: int| 0 <= m < q ==> self.ready@[best as int].spec_index() <= (#[trigger] self.ready@[m]).spec_index(),
            decreases self.ready@.len() - q,
        {
            if self.ready[q].index() < self.ready[best].index() {
                best = q;
            }
            q += 1;
        }
        let ghost old_ready = self.ready@;
        let key = self.ready.swap_remove(best);
        proof {
            assert(old_ready.contains(key));
            assert forall|k2: K| #[trigger] old(self).is_ready(k2) implies key.spec_index() <= k2.spec_index() by {
                assert(old_ready.contains(k2));
                let m = choose|m: int| 0 <= m < old_ready.len() && old_ready[m] == k2;
                assert(key.spec_index() <= old_ready[m].spec_index());
            }
            super::graph::lemma_swap_remove(old_ready, best as int);
        }
        let ki = key.index();
        self.pending.set(ki, false);
        self.remaining = self.remaining - 1;
        proof {
            assert(p0.contains(key));
            self.pending_keys@ = p0.remove(key);
            vstd::set::axiom_set_remove_len(p0, key);
            self.graph.lemma_wf_facts();
            assert forall|k: K| #[trigger] self.pending_keys@.contains(k)
                <==> (k.spec_index() < self.pending@.len() && self.pending@[k.spec_index() as int]) by {
                if k.spec_index() == ki {
                    K::lemma_index_injective(k, key);
                }
            }
            assert forall|k: K| #[trigger] self.pending_keys@.contains(k) && self.graph.deps(k, c).contains(key)
                implies count_in(self.graph.deps(k, c), p0) >= 1 by {
                lemma_count_zero(self.graph.deps(k, c), p0);
            }
            assert forall|k: K| #[trigger] self.ready@.contains(k)
                <==> (self.pending_keys@.contains(k) && self.in_degree@[k.spec_index() as int] == 0) by {
                if old_ready.contains(k) && k != key {
                    let m = choose|m: int| 0 <= m < old_ready.len() && old_ready[m] == k;
                }
            }
        }
        let ghost p1 = self.pending_keys@;
        let dependents = self.graph.dependents(key, self.channel);
        let mut j: usize = 0;
        while j < dependents.len()
            invariant
                self.graph.wf(),
                self.graph == old(self).graph,
                self.channel == old(self).channel,
                self.stalled == old(self).stalled,
                c == self.channel.idx(),
                p0.contains(key),
                p1 == p0.remove(key),
                self.pending_keys@ == p1,
                p1.finite(),
                self.remaining == p1.len(),
                self.in_degree@.len() == self.pending@.len(),
                dependents@ == self.graph.rdeps(key, c),
                dependents@.no_duplicates(),
                j <= dependents@.len(),
                forall|k: K| #[trigger] p1.contains(k)
                    <==> (k.spec_index() < self.pending@.len() && self.pending@[k.spec_index() as int]),
                forall|k: K| #[trigger] p1.contains(k) ==> self.in_degree@[k.spec_index() as int]
                    == count_in(self.graph.deps(k, c), p0) - if dependents@.subrange(0, j as int).contains(k) { 1int } else { 0int },
                forall|k: K| #[trigger] p1.contains(k) && self.graph.deps(k, c).contains(key)
                    && !dependents@.subrange(0, j as int).contains(k) ==> count_in(self.graph.deps(k, c), p0) >= 1,
                self.ready@.no_duplicates(),
                forall|k: K| #[trigger] self.ready@.contains(k)
                    <==> (p1.contains(k) && self.in_degree@[k.spec_index() as int] == 0),
            decreases dependents@.len() - j,
        {
            let dependent = dependents[j];
            let di = dependent.index();
            let ghost before_ready = self.ready@;
            proof {
                assert(dependents@.subrange(0, j + 1) == dependents@.subrange(0, j as int).push(dependent));
                lemma_push_contains(dependents@.subrange(0, j as int), dependent);
                assert(!dependents@.subrange(0, j as int).contains(dependent)) by {
                    if dependents@.subrange(0, j as int).contains(dependent) {
                        let m = choose|m: int| 0 <= m < j && dependents@.subrange(0, j as int)[m] == dependent;
                        assert(dependents@[m] == dependents@[j as int]);
                    }
                }
                self.graph.lemma_wf_facts();
                assert(self.graph.rdeps(key, c).contains(dependent));
                assert(self.graph.deps(dependent, c).contains(key));
            }
            if di < self.pending.len() && self.pending[di] {
                proof {
                    assert(p1.contains(dependent));
                    lemma_count_zero(self.graph.deps(dependent, c), p0);
                }
                let nd = self.in_degree[di] - 1;
                self.in_degree.set(di, nd);
                if nd == 0 {
                    proof {
                        assert(!before_ready.contains(dependent));
                        lemma_push_fresh(self.ready@, dependent);
                    }
                    self.ready.push(dependent);
                }
                proof {
                    assert forall|k: K| #[trigger] self.ready@.contains(k)
                        <==> (p1.contains(k) && self.in_degree@[k.spec_index() as int] == 0) by {
                        if k.spec_index() == di {
                            K::lemma_index_injective(k, dependent);
                        }
                        lemma_push_contains(before_ready, dependent);
                    }
                    assert forall|k: K| #[trigger] p1.contains(k) implies self.in_degree@[k.spec_index() as int]
                        == count_in(self.graph.deps(k, c), p0) - if dependents@.subrange(0, j + 1).contains(k) { 1int } else { 0int } by {
                        if k.spec_index() == di {
                            K::lemma_index_injective(k, dependent);
                        }
                    }
                }
            } else {
                proof {
                    assert(!p1.contains(dependent));
                    assert forall|k: K| #[trigger] p1.contains(k) implies self.in_degree@[k.spec_index() as int]
                        == count_in(self.graph.deps(k, c), p0) - if dependents@.subrange(0, j + 1).contains(k) { 1int } else { 0int } by {
                    }
                }
            }
            j += 1;
        }
        proof {
            assert(dependents@.subrange(0, j as int) == dependents@);
            self.graph.lemma_wf_facts();
            assert forall|k: K| #[trigger] p1.contains(k) implies self.in_degree@[k.spec_index() as int] == self.pending_deps(k) by {
                lemma_count_remove(self.graph.deps(k, c), p0, key);
                assert(self.graph.deps(k, c).contains(key) == self.graph.rdeps(key, c).contains(k));
            }
            assert forall|k: K| #[trigger] self.ready@.contains(k) <==> self.is_ready(k) by {
                if p1.contains(k) {
                    assert(self.in_degree@[k.spec_index() as int] == self.pending_deps(k));
                }
            }
        }
        Some(key)
    }
}

/// The roots in `roots` and every key that depends on one of them, directly
/// or transitively, in channel `c`.
pub open spec fn affected_keys<K: DenseKey>(g: DirtyGraph<K>, c: nat, roots: Set<K>) -> Set<K> {
    Set::new(|k: K| exists|r: K| #[trigger] roots.contains(r) && (k == r || g.depends_transitively(c, k, r)))
}

/// A sequence none of whose values is contained is empty.
proof fn lemma_nothing_contained<K>(s: Seq<K>)
    requires
        forall|k: K| !#[trigger] s.contains(k),
    ensures
        s == Seq::<K>::empty(),
{
    if s.len() > 0 {
        assert(s.contains(s[0]));
    }
}

/// The unrestricted affected drain takes exactly [`affected_keys`].
proof fn lemma_drain_keys_affected<K: DenseKey>(g: DirtyGraph<K>, c: nat, dirty: Seq<K>)
    ensures
        drain_keys(g, c, DrainMode::Affected, Within::All, dirty) == affected_keys(g, c, dirty.to_set()),
{
    let rs = super::drain_builder::drain_roots(g, c, Within::All, dirty);
    assert(rs =~= dirty.to_set());
    assert forall|k: K| #[trigger] drain_keys(g, c, DrainMode::Affected, Within::All, dirty).contains(k)
        == affected_keys(g, c, dirty.to_set()).contains(k) by {
        lemma_affected_all(g, c, rs, k);
    }
    assert(drain_keys(g, c, DrainMode::Affected, Within::All, dirty) =~= affected_keys(g, c, dirty.to_set()));
}

/// Clears `channel` in `dirty` and returns a topologically sorted drain of
/// the keys that were dirty there.
pub fn drain_sorted<'a, K: DenseKey>(dirty: &mut DirtySet<K>, graph: &'a DirtyGraph<K>, channel: Channel) -> (d: DrainSorted<'a, K>)
    requires
        old(dirty).wf(),
        graph.wf(),
    ensures
        final(dirty).wf(),
        final(dirty).keys(channel.idx()) == Seq::<K>::empty(),
        forall|c: nat| c != channel.idx() ==> #[trigger] final(dirty).keys(c) == old(dirty).keys(c),
        d.wf(),
        d.graph_view() == *graph,
        d.channel_view() == channel,
        !d.stalled_view(),
        d.pending_set() == old(dirty).keys(channel.idx()).to_set(),
{
    let ghost before = dirty.keys(channel.idx());
    let d = DrainBuilder::new(dirty, graph, channel).dirty_only().run();
    proof {
        lemma_nothing_contained(dirty.keys(channel.idx()));
        assert(d.pending_set() =~= before.to_set());
    }
    d
}

/// Like [`drain_sorted`], but ready keys are yielded smallest first.
pub fn drain_sorted_deterministic<'a, K: DenseKey>(dirty: &mut DirtySet<K>, graph: &'a DirtyGraph<K>, channel: Channel) -> (d: DrainSortedDeterministic<'a, K>)
    requires
        old(dirty).wf(),
        graph.wf(),
        forall|k: K| #[trigger] old(dirty).keys(channel.idx()).contains(k) ==> k.spec_index() < usize::MAX,
    ensures
        final(dirty).wf(),
        final(dirty).keys(channel.idx()) == Seq::<K>::empty(),
        forall|c: nat| c != channel.idx() ==> #[trigger] final(dirty).keys(c) == old(dirty).keys(c),
        d.wf(),
        d.graph_view() == *graph,
        d.channel_view() == channel,
        !d.stalled_view(),
        d.pending_set() == old(dirty).keys(channel.idx()).to_set(),
{
    let ghost before = dirty.keys(channel.idx());
    let d = DrainBuilder::new(dirty, graph, channel).dirty_only().deterministic().run();
    proof {
        lemma_nothing_contained(dirty.keys(channel.idx()));
        assert(d.pending_set() =~= before.to_set());
    }
    d
}

/// Clears `channel` in `dirty` and returns a topologically sorted drain of
/// the keys that were dirty there and all of their transitive dependents.
pub fn drain_affected_sorted<'a, K: DenseKey>(dirty: &mut DirtySet<K>, graph: &'a DirtyGraph<K>, channel: Channel) -> (d: DrainSorted<'a, K>)
    requires
        old(dirty).wf(),
        graph.wf(),
    ensures
        final(dirty).wf(),
        final(dirty).keys(channel.idx()) == Seq::<K>::empty(),
        forall|c: nat| c != channel.idx() ==> #[trigger] final(dirty).keys(c) == old(dirty).keys(c),
        d.wf(),
        d.graph_view() == *graph,
        d.channel_view() == channel,
        !d.stalled_view(),
        d.pending_set() == affected_keys(*graph, channel.idx(), old(dirty).keys(channel.idx()).to_set()),
{
    let ghost before = dirty.keys(channel.idx());
    let d = DrainBuilder::new(dirty, graph, channel).affected().run();
    proof {
        lemma_nothing_contained(dirty.keys(channel.idx()));
        lemma_drain_keys_affected(*graph, channel.idx(), before);
    }
    d
}

/// Like [`drain_affected_sorted`], while recording in `trace` one plausible
/// cause per affected key (the first path discovered).
pub fn drain_affected_sorted_with_trace<'a, K: DenseKey, T: DirtyTrace<K>>(
    dirty: &mut DirtySet<K>,
    graph: &'a DirtyGraph<K>,
    channel: Channel,
    scratch: &mut TraversalScratch<K>,
    trace: &mut T,
) -> (d: DrainSorted<'a, K>)
    requires
        old(dirty).wf(),
        graph.wf(),
    ensures
        final(dirty).wf(),
        final(dirty).keys(channel.idx()) == Seq::<K>::empty(),
        forall|c: nat| c != channel.idx() ==> #[trigger] final(dirty).keys(c) == old(dirty).keys(c),
        d.wf(),
        d.graph_view() == *graph,
        d.channel_view() == channel,
        !d.stalled_view(),
        d.pending_set() == affected_keys(*graph, channel.idx(), old(dirty).keys(channel.idx()).to_set()),
        old(trace).obeys_call_log_spec() ==> final(trace).obeys_call_log_spec()
            && old(trace).calls().len() <= final(trace).calls().len()
            && final(trace).calls().take(old(trace).calls().len() as int) == old(trace).calls()
            && traced_expansion(
                final(trace).calls().skip(old(trace).calls().len() as int),
                *graph,
                channel,
                Within::<K>::All,
                old(dirty).keys(channel.idx()),
            )
            && newly_reported(final(trace).calls().skip(old(trace).calls().len() as int)).no_duplicates()
            && newly_reported(final(trace).calls().skip(old(trace).calls().len() as int)).to_set() == d.pending_set(),
{
    let ghost before = dirty.keys(channel.idx());
    let d = DrainBuilder::new(dirty, graph, channel).affected().trace(scratch, trace).run();
    proof {
        lemma_nothing_contained(dirty.keys(channel.idx()));
        lemma_drain_keys_affected(*graph, channel.idx(), before);
    }
    d
}

/// Like [`drain_affected_sorted`], but ready keys are yielded smallest first.
pub fn drain_affected_sorted_deterministic<'a, K: DenseKey>(dirty: &mut DirtySet<K>, graph: &'a DirtyGraph<K>, channel: Channel) -> (d: DrainSortedDeterministic<'a, K>)
    requires
        old(dirty).wf(),
        graph.wf(),
        forall|k: K| #[trigger] old(dirty).keys(channel.idx()).contains(k) ==> k.spec_index() < usize::MAX,
    ensures
        final(dirty).wf(),
        final(dirty).keys(channel.idx()) == Seq::<K>::empty(),
        forall|c: nat| c != channel.idx() ==> #[trigger] final(dirty).keys(c) == old(dirty).keys(c),
        d.wf(),
        d.graph_view() == *graph,
        d.channel_view() == channel,
        !d.stalled_view(),
        d.pending_set() == affected_keys(*graph, channel.idx(), old(dirty).keys(channel.idx()).to_set()),
{
    let ghost before = dirty.keys(channel.idx());
    let d = DrainBuilder::new(dirty, graph, channel).affected().deterministic().run();
    proof {
        lemma_nothing_contained(dirty.keys(channel.idx()));
        lemma_drain_keys_affected(*graph, channel.idx(), before);
    }
    d
}

/// Some dependency of `k` in channel `c` that lies in `left`.
spec fn next_in<K: DenseKey>(g: DirtyGraph<K>, c: nat, left: Set<K>, k: K) -> K {
    choose|d: K| g.deps(k, c).contains(d) && left.contains(d)
}

/// Starting at `k`, `n` steps along dependencies that stay in `left`.
spec fn walk<K: DenseKey>(g: DirtyGraph<K>, c: nat, left: Set<K>, k: K, n: nat) -> Seq<K>
    decreases n,
{
    if n == 0 {
        seq![k]
    } else {
        let w = walk(g, c, left, k, (n - 1) as nat);
        w.push(next_in(g, c, left, w.last()))
    }
}

/// In a stuck set, a walk never leaves the set and follows dependencies.
proof fn lemma_walk<K: DenseKey>(g: DirtyGraph<K>, c: nat, left: Set<K>, k: K, n: nat)
    requires
        left.contains(k),
        is_stuck(g, c, left),
    ensures
        walk(g, c, left, k, n).len() == n + 1,
        walk(g, c, left, k, n)[0] == k,
        forall|i: int| 0 <= i < n + 1 ==> left.contains(#[trigger] walk(g, c, left, k, n)[i]),
        forall|i: int| 0 <= i < n ==> #[trigger] g.edge_at(c, walk(g, c, left, k, n), i),
    decreases n,
{
    if n > 0 {
        let w = walk(g, c, left, k, (n - 1) as nat);
        lemma_walk(g, c, left, k, (n - 1) as nat);
        let x = w.last();
        assert(left.contains(x)) by { assert(x == w[n - 1]); }
        assert(count_in(g.deps(x, c), left) > 0);
        lemma_count_zero(g.deps(x, c), left);
        let d = next_in(g, c, left, x);
        let v = walk(g, c, left, k, n);
        assert(v == w.push(d));
        assert forall|i: int| 0 <= i < n + 1 implies left.contains(#[trigger] v[i]) by {
            if i < n {
                assert(v[i] == w[i]);
            }
        }
        assert forall|i: int| 0 <= i < n implies #[trigger] g.edge_at(c, v, i) by {
            if i < n - 1 {
                assert(g.edge_at(c, w, i));
            }
        }
    }
}

/// A nonempty finite set in which every key still has a dependency inside
/// the set contains a cycle.
pub proof fn lemma_stuck_has_cycle<K: DenseKey>(g: DirtyGraph<K>, c: nat, left: Set<K>)
    requires
        left.finite(),
        left.len() > 0,
        is_stuck(g, c, left),
    ensures
        exists|k: K| left.contains(k) && #[trigger] g.depends_transitively(c, k, k),
{
    let k0 = left.choose();
    let n = left.len();
    let w = walk(g, c, left, k0, n);
    lemma_walk(g, c, left, k0, n);
    assert(w.to_set().subset_of(left)) by {
        assert forall|x: K| #[trigger] w.to_set().contains(x) implies left.contains(x) by {
            let i = choose|i: int| 0 <= i < w.len() && w[i] == x;
        }
    }
    vstd::set_lib::lemma_len_subset(w.to_set(), left);
    if w.no_duplicates() {
        w.unique_seq_to_set();
        assert(false);
    }
    let (i, j) = choose|i: int, j: int| 0 <= i < w.len() && 0 <= j < w.len() && i != j && w[i] == w[j];
    let lo = if i < j { i } else { j };
    let hi = if i < j { j } else { i };
    let p = w.subrange(lo, hi + 1);
    assert forall|m: int| 0 <= m < p.len() - 1 implies #[trigger] g.edge_at(c, p, m) by {
        assert(g.edge_at(c, w, lo + m));
    }
    assert(g.is_path(c, p));
    assert(g.depends_transitively(c, w[lo], w[lo]));
    assert(w.to_set().contains(w[lo]));
}

/// A drain over a graph without cycles in its channel never gets stuck:
/// when no key is ready any more, none is pending.
pub proof fn lemma_acyclic_drain_completes<K: DenseKey>(g: DirtyGraph<K>, c: nat, left: Set<K>)
    requires
        g.acyclic(c),
        left.finite(),
        is_stuck(g, c, left),
    ensures
        left == Set::<K>::empty(),
{
    if left.len() > 0 {
        lemma_stuck_has_cycle(g, c, left);
    }
    assert(left =~= Set::<K>::empty());
}

/// Collecting a drain over a graph without cycles in its channel yields
/// every pending key, each after all of its pending dependencies, and
/// reports completion.
pub proof fn lemma_acyclic_collect_complete<K: DenseKey>(g: DirtyGraph<K>, c: nat, pending: Set<K>, out: Seq<K>, completion: DrainCompletion)
    requires
        g.acyclic(c),
        pending.finite(),
        is_topological(g, c, pending, out),
        is_stuck(g, c, pending.difference(out.to_set())),
        completion == completion_after(false, pending, out),
    ensures
        out.to_set() == pending,
        completion == DrainCompletion::Complete,
{
    let left = pending.difference(out.to_set());
    lemma_acyclic_drain_completes(g, c, left);
    assert forall|k: K| #[trigger] out.to_set().contains(k) implies pending.contains(k) by {
        let i = choose|i: int| 0 <= i < out.len() && out[i] == k;
    }
    assert forall|k: K| #[trigger] pending.contains(k) implies out.to_set().contains(k) by {
        assert(!left.contains(k));
    }
    assert(out.to_set() =~= pending);
}

} // verus!
