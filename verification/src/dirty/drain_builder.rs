use vstd::prelude::*;

use super::channel::Channel;
use super::drain::{lemma_filter_no_dup, DrainSorted, DrainSortedDeterministic};
use super::graph::{key_indices, lemma_push_contains, lemma_push_fresh, DirtyGraph};
use super::hashed::IndexSet;
use super::key::DenseKey;
use super::scratch::TraversalScratch;
use super::set::{lemma_seq_remove_key, DirtySet};
use super::trace::{call_key, DirtyTrace, TraceCall};

verus! {

/// Type-level marker for "any" drain ordering (ties are not specified).
#[derive(Copy, Clone, Debug, Default)]
pub struct AnyOrder;

/// Type-level marker for deterministic drain ordering (ties broken by key).
#[derive(Copy, Clone, Debug, Default)]
pub struct DeterministicOrder;

/// A trace receiver that records nothing.
#[derive(Copy, Clone, Debug, Default)]
pub struct NoTrace;

impl<K> DirtyTrace<K> for NoTrace {
    fn root(&mut self, key: K, channel: Channel, newly_dirty: bool) {
    }

    fn caused_by(&mut self, key: K, because: K, channel: Channel, newly_dirty: bool) {
    }
}

/// Which keys a drain yields.
#[derive(Copy, Clone, Debug, PartialEq, Eq, Structural)]
pub enum DrainMode {
    /// Exactly the keys marked dirty.
    DirtyOnly,
    /// The dirty keys plus all of their transitive dependents.
    Affected,
}

/// Which keys a drain may touch.
#[derive(Copy, Clone, Debug)]
pub enum Within<'w, K> {
    /// Every key.
    All,
    /// Only the listed keys.
    Keys(&'w [K]),
    /// Only the key and its transitive dependencies.
    DependenciesOf(K),
}

/// `k` may be drained under the restriction `within`.
pub open spec fn within_allows<K: DenseKey>(g: DirtyGraph<K>, c: nat, within: Within<'_, K>, k: K) -> bool {
    match within {
        Within::All => true,
        Within::Keys(ks) => ks@.contains(k),
        Within::DependenciesOf(key) => g.reaches(c, key, k),
    }
}

/// `allowed` holds the indices of the keys `within` permits, where that set
/// has to be computed.
pub open spec fn allowed_matches<K: DenseKey>(g: DirtyGraph<K>, c: nat, within: Within<'_, K>, allowed: Set<usize>) -> bool {
    match within {
        Within::DependenciesOf(key) => forall|k: K| #[trigger] allowed.contains(k.spec_index()) <==> g.reaches(c, key, k),
        _ => true,
    }
}

/// `p` is a dependency chain in channel `c` whose keys are all permitted.
pub open spec fn allowed_path<K: DenseKey>(g: DirtyGraph<K>, c: nat, within: Within<'_, K>, p: Seq<K>) -> bool {
    &&& g.is_path(c, p)
    &&& forall|i: int| 0 <= i < p.len() ==> within_allows(g, c, within, #[trigger] p[i])
}

/// `k` is a root or depends on one, through permitted keys only.
pub open spec fn affected_within<K: DenseKey>(g: DirtyGraph<K>, c: nat, within: Within<'_, K>, roots: Set<K>, k: K) -> bool {
    exists|p: Seq<K>| #[trigger] allowed_path(g, c, within, p) && p[0] == k && roots.contains(p.last())
}

/// The dirty keys of a channel that a drain restricted by `within` takes.
pub open spec fn drain_roots<K: DenseKey>(g: DirtyGraph<K>, c: nat, within: Within<'_, K>, dirty: Seq<K>) -> Set<K> {
    Set::new(|k: K| dirty.contains(k) && within_allows(g, c, within, k))
}

/// The keys a drain yields, given the dirty keys of its channel.
pub open spec fn drain_keys<K: DenseKey>(g: DirtyGraph<K>, c: nat, mode: DrainMode, within: Within<'_, K>, dirty: Seq<K>) -> Set<K> {
    match mode {
        DrainMode::DirtyOnly => drain_roots(g, c, within, dirty),
        DrainMode::Affected => Set::new(|k: K| affected_within(g, c, within, drain_roots(g, c, within, dirty), k)),
    }
}

/// Without a restriction, the affected keys are the roots and every key
/// that depends on a root, directly or transitively.
pub proof fn lemma_affected_all<K: DenseKey>(g: DirtyGraph<K>, c: nat, roots: Set<K>, k: K)
    ensures
        affected_within(g, c, Within::All, roots, k)
            <==> exists|r: K| #[trigger] roots.contains(r) && (k == r || g.depends_transitively(c, k, r)),
{
    if affected_within(g, c, Within::All, roots, k) {
        let p = choose|p: Seq<K>| #[trigger] allowed_path(g, c, Within::All, p) && p[0] == k && roots.contains(p.last());
        if p.len() >= 2 {
            assert(g.is_path(c, p));
            assert(g.depends_transitively(c, k, p.last()));
        }
        assert(roots.contains(p.last()));
    }
    if exists|r: K| #[trigger] roots.contains(r) && (k == r || g.depends_transitively(c, k, r)) {
        let r = choose|r: K| #[trigger] roots.contains(r) && (k == r || g.depends_transitively(c, k, r));
        if k == r {
            lemma_affected_root(g, c, Within::All, roots, r);
        } else {
            let p = choose|p: Seq<K>| #[trigger] g.is_path(c, p) && p.len() >= 2 && p[0] == k && p.last() == r;
            assert(allowed_path(g, c, Within::All, p));
        }
    }
}

/// A permitted root is affected.
pub proof fn lemma_affected_root<K: DenseKey>(g: DirtyGraph<K>, c: nat, within: Within<'_, K>, roots: Set<K>, r: K)
    requires
        roots.contains(r),
        within_allows(g, c, within, r),
    ensures
        affected_within(g, c, within, roots, r),
{
    let p = seq![r];
    assert(allowed_path(g, c, within, p));
}

/// A permitted direct dependent of an affected key is affected.
pub proof fn lemma_affected_extend<K: DenseKey>(g: DirtyGraph<K>, c: nat, within: Within<'_, K>, roots: Set<K>, k: K, d: K)
    requires
        affected_within(g, c, within, roots, k),
        g.deps(d, c).contains(k),
        within_allows(g, c, within, d),
    ensures
        affected_within(g, c, within, roots, d),
{
    let p = choose|p: Seq<K>| #[trigger] allowed_path(g, c, within, p) && p[0] == k && roots.contains(p.last());
    let q = seq![d] + p;
    assert forall|i: int| 0 <= i < q.len() - 1 implies #[trigger] g.edge_at(c, q, i) by {
        if i > 0 {
            assert(g.edge_at(c, p, i - 1));
        }
    }
    assert forall|i: int| 0 <= i < q.len() implies within_allows(g, c, within, #[trigger] q[i]) by {
        if i > 0 {
            assert(q[i] == p[i - 1]);
        }
    }
    assert(allowed_path(g, c, within, q));
    assert(q.last() == p.last());
}

/// A set of keys that holds every permitted root and is closed under
/// permitted direct dependents holds every affected key.
pub proof fn lemma_affected_closed<K: DenseKey>(g: DirtyGraph<K>, c: nat, within: Within<'_, K>, roots: Set<K>, seen: Seq<K>, p: Seq<K>, n: int)
    requires
        g.wf(),
        allowed_path(g, c, within, p),
        roots.contains(p.last()),
        forall|r: K| #[trigger] roots.contains(r) && within_allows(g, c, within, r) ==> seen.contains(r),
        forall|k: K, d: K| seen.contains(k) && #[trigger] g.rdeps(k, c).contains(d) && within_allows(g, c, within, d)
            ==> seen.contains(d),
        0 <= n < p.len(),
    ensures
        seen.contains(p[n]),
    decreases p.len() - n,
{
    g.lemma_wf_facts();
    if n == p.len() - 1 {
        assert(within_allows(g, c, within, p[n]));
    } else {
        lemma_affected_closed(g, c, within, roots, seen, p, n + 1);
        assert(g.edge_at(c, p, n));
        assert(g.rdeps(p[n + 1], c).contains(p[n]));
        assert(within_allows(g, c, within, p[n]));
    }
}

/// An affected key is a root or has a dependency.
pub proof fn lemma_affected_root_or_edge<K: DenseKey>(g: DirtyGraph<K>, c: nat, within: Within<'_, K>, roots: Set<K>, k: K)
    requires
        affected_within(g, c, within, roots, k),
    ensures
        roots.contains(k) || g.deps(k, c).len() > 0,
{
    let p = choose|p: Seq<K>| #[trigger] allowed_path(g, c, within, p) && p[0] == k && roots.contains(p.last());
    if p.len() > 1 {
        assert(g.edge_at(c, p, 0));
    }
}

/// Indices of `key` and of every key it depends on, transitively, in
/// `channel` (a depth-first search that reuses `scratch`).
fn compute_allowed_dependencies<K: DenseKey>(graph: &DirtyGraph<K>, channel: Channel, key: K, scratch: &mut TraversalScratch<K>) -> (allowed: IndexSet)
    requires
        graph.wf(),
    ensures
        forall|k: K| #[trigger] allowed.contents().contains(k.spec_index()) <==> graph.reaches(channel.idx(), key, k),
{
    let ghost c = channel.idx();
    let mut allowed = IndexSet::new();
    let _ = allowed.insert(key.index());
    scratch.reset();
    scratch.stack.push(key);
    let ghost mut seen: Seq<K> = seq![key];
    proof {
        graph.lemma_wf_facts();
        graph.lemma_reaches_refl(c, key);
        <usize as vstd::set_lib::FiniteFull>::full_properties();
        vstd::set_lib::lemma_len_subset(allowed.contents(), Set::<usize>::full());
        assert(key_indices(seen)[0] == key.spec_index() as int);
        assert forall|i: usize| #[trigger] allowed.contents().contains(i) <==> key_indices(seen).contains(i as int) by {
            if key_indices(seen).contains(i as int) {
                let m = choose|m: int| 0 <= m < key_indices(seen).len() && key_indices(seen)[m] == i as int;
            }
        }
        assert(scratch.stack@.contains(key)) by { assert(scratch.stack@[0] == key); }
    }
    while scratch.stack.len() > 0
        invariant
            graph.wf(),
            c == channel.idx(),
            Set::<usize>::full().finite(),
            allowed.contents().finite(),
            allowed.contents().len() <= Set::<usize>::full().len(),
            seen.no_duplicates(),
            seen.len() > 0,
            seen[0] == key,
            forall|i: usize| #[trigger] allowed.contents().contains(i) <==> key_indices(seen).contains(i as int),
            forall|k: K| #[trigger] seen.contains(k) ==> graph.reaches(c, key, k),
            scratch.stack@.no_duplicates(),
            forall|k: K| #[trigger] scratch.stack@.contains(k) ==> seen.contains(k),
            forall|k: K, d: K| seen.contains(k) && !scratch.stack@.contains(k) && #[trigger] graph.deps(k, c).contains(d)
                ==> seen.contains(d),
        decreases Set::<usize>::full().len() - allowed.contents().len(), scratch.stack@.len(),
    {
        let ghost old_stack = scratch.stack@;
        let current = scratch.stack.pop().unwrap();
        proof {
            assert(old_stack == scratch.stack@.push(current));
            assert(old_stack.contains(current)) by { assert(old_stack[old_stack.len() - 1] == current); }
            assert(!scratch.stack@.contains(current)) by {
                if scratch.stack@.contains(current) {
                    let j = choose|j: int| 0 <= j < scratch.stack@.len() && scratch.stack@[j] == current;
                    assert(old_stack[j] == old_stack[old_stack.len() - 1]);
                }
            }
            assert forall|k: K| #[trigger] scratch.stack@.contains(k) implies old_stack.contains(k) by {
                let j = choose|j: int| 0 <= j < scratch.stack@.len() && scratch.stack@[j] == k;
                assert(old_stack[j] == k);
            }
        }
        let deps = graph.dependencies(current, channel);
        let ghost base_stack = scratch.stack@;
        let ghost base_seen = seen;
        let ghost base_len = allowed.contents().len();
        let mut j: usize = 0;
        while j < deps.len()
            invariant
                graph.wf(),
                c == channel.idx(),
                Set::<usize>::full().finite(),
                allowed.contents().finite(),
                allowed.contents().len() <= Set::<usize>::full().len(),
                deps@ == graph.deps(current, c),
                j <= deps@.len(),
                scratch.stack@.len() + base_len == base_stack.len() + allowed.contents().len(),
                base_len <= allowed.contents().len(),
                seen.no_duplicates(),
                seen.len() > 0,
                seen[0] == key,
                seen.contains(current),
                base_seen.len() <= seen.len(),
                forall|i: int| 0 <= i < base_seen.len() ==> #[trigger] seen[i] == base_seen[i],
                forall|i: usize| #[trigger] allowed.contents().contains(i) <==> key_indices(seen).contains(i as int),
                forall|k: K| #[trigger] seen.contains(k) ==> graph.reaches(c, key, k),
                scratch.stack@.no_duplicates(),
                !scratch.stack@.contains(current),
                forall|k: K| #[trigger] scratch.stack@.contains(k) ==> seen.contains(k),
                forall|k: K| #[trigger] seen.contains(k) && !base_seen.contains(k) ==> scratch.stack@.contains(k),
                forall|k: K| #[trigger] base_stack.contains(k) ==> scratch.stack@.contains(k),
                forall|m: int| 0 <= m < j ==> seen.contains(#[trigger] deps@[m]),
                forall|k: K, d: K| base_seen.contains(k) && !base_stack.contains(k) && k != current && #[trigger] graph.deps(k, c).contains(d)
                    ==> base_seen.contains(d),
            decreases deps@.len() - j,
        {
            let dep = deps[j];
            let ghost old_seen = seen;
            proof {
                assert(graph.deps(current, c).contains(dep));
                graph.lemma_reaches_step(c, key, current, dep);
            }
            if allowed.insert(dep.index()) {
                proof {
                    vstd::set_lib::lemma_len_subset(allowed.contents(), Set::<usize>::full());
                    assert(!seen.contains(dep)) by {
                        if seen.contains(dep) {
                            let m = choose|m: int| 0 <= m < seen.len() && seen[m] == dep;
                            assert(key_indices(seen)[m] == dep.spec_index() as int);
                        }
                    }
                    lemma_push_fresh(seen, dep);
                    assert(!scratch.stack@.contains(dep));
                    lemma_push_fresh(scratch.stack@, dep);
                }
                scratch.stack.push(dep);
                proof {
                    seen = seen.push(dep);
                    lemma_push_contains(old_seen, dep);
                    assert forall|i: usize| #[trigger] allowed.contents().contains(i) <==> key_indices(seen).contains(i as int) by {
                        if key_indices(seen).contains(i as int) {
                            let m = choose|m: int| 0 <= m < key_indices(seen).len() && key_indices(seen)[m] == i as int;
                            if m < old_seen.len() {
                                assert(key_indices(old_seen)[m] == i as int);
                            }
                        }
                        if key_indices(old_seen).contains(i as int) {
                            let m = choose|m: int| 0 <= m < key_indices(old_seen).len() && key_indices(old_seen)[m] == i as int;
                            assert(key_indices(seen)[m] == i as int);
                        }
                        if i == dep.spec_index() {
                            assert(key_indices(seen)[old_seen.len() as int] == i as int);
                        }
                    }
                    assert(seen[0] == key);
                }
            } else {
                proof {
                    assert(key_indices(seen).contains(dep.spec_index() as int));
                    let m = choose|m: int| 0 <= m < key_indices(seen).len() && key_indices(seen)[m] == dep.spec_index() as int;
                    K::lemma_index_injective(seen[m], dep);
                    assert(seen.contains(dep));
                }
            }
            j += 1;
        }
        proof {
            assert forall|k: K, d: K| seen.contains(k) && !scratch.stack@.contains(k) && #[trigger] graph.deps(k, c).contains(d)
                implies seen.contains(d) by {
                if k == current {
                    let m = choose|m: int| 0 <= m < deps@.len() && deps@[m] == d;
                    assert(seen.contains(deps@[m]));
                } else {
                    assert(base_seen.contains(k));
                    assert(!base_stack.contains(k));
                    assert(base_seen.contains(d));
                    let m = choose|m: int| 0 <= m < base_seen.len() && base_seen[m] == d;
                    assert(seen[m] == d);
                }
            }
        }
    }
    proof {
        assert forall|k: K| #[trigger] allowed.contents().contains(k.spec_index()) <==> graph.reaches(c, key, k) by {
            if allowed.contents().contains(k.spec_index()) {
                let m = choose|m: int| 0 <= m < key_indices(seen).len() && key_indices(seen)[m] == k.spec_index() as int;
                K::lemma_index_injective(seen[m], k);
                assert(seen.contains(seen[m]));
            }
            if graph.reaches(c, key, k) {
                let p = choose|p: Seq<K>| #[trigger] graph.is_path(c, p) && p[0] == key && p.last() == k;
                assert(key_indices(seen)[0] == key.spec_index() as int);
                assert forall|k2: K, d: K| allowed.contents().contains(k2.spec_index()) && #[trigger] graph.deps(k2, c).contains(d)
                    implies allowed.contents().contains(d.spec_index()) by {
                    let m = choose|m: int| 0 <= m < key_indices(seen).len() && key_indices(seen)[m] == k2.spec_index() as int;
                    K::lemma_index_injective(seen[m], k2);
                    assert(seen.contains(k2));
                    assert(seen.contains(d));
                    let m2 = choose|m2: int| 0 <= m2 < seen.len() && seen[m2] == d;
                    assert(key_indices(seen)[m2] == d.spec_index() as int);
                }
                graph.lemma_closed_contains_path(c, allowed.contents(), p, p.len() - 1);
            }
        }
    }
    allowed
}

/// Whether `keys` contains `key`.
fn slice_contains<K: DenseKey>(keys: &[K], key: K) -> (r: bool)
    ensures
        r == keys@.contains(key),
{
    let mut i: usize = 0;
    while i < keys.len()
        invariant
            i <= keys@.len(),
            forall|j: int| 0 <= j < i ==> keys@[j] != key,
        decreases keys@.len() - i,
    {
        if keys[i].key_eq(&key) {
            return true;
        }
        i += 1;
    }
    false
}

/// Whether `key` may be drained under `within`, with `allowed` holding the
/// permitted indices for a dependency-closure restriction.
fn is_allowed<K: DenseKey>(graph: &DirtyGraph<K>, channel: Channel, within: &Within<'_, K>, key: K, allowed: &IndexSet) -> (r: bool)
    requires
        allowed_matches(*graph, channel.idx(), *within, allowed.contents()),
    ensures
        r == within_allows(*graph, channel.idx(), *within, key),
{
    match *within {
        Within::All => true,
        Within::Keys(keys) => slice_contains(keys, key),
        Within::DependenciesOf(_) => allowed.contains(key.index()),
    }
}

/// Whether a trace call reports its key as newly reached.
pub open spec fn call_newly<K>(call: TraceCall<K>) -> bool {
    match call {
        TraceCall::Root(_, _, newly) => newly,
        TraceCall::CausedBy(_, _, _, newly) => newly,
    }
}

/// The keys that `calls` report as newly reached, in order.
pub open spec fn newly_reported<K>(calls: Seq<TraceCall<K>>) -> Seq<K> {
    calls.filter(|t: TraceCall<K>| call_newly(t)).map_values(|t: TraceCall<K>| call_key(t))
}

/// One of the first `i` calls is about `k`.
pub open spec fn reported_before<K>(calls: Seq<TraceCall<K>>, i: int, k: K) -> bool {
    exists|j: int| 0 <= j < i && #[trigger] call_key(calls[j]) == k
}

/// Call `i` of an affected expansion in `channel`: a permitted key reached
/// through a direct dependency on a key reported before it, newly reached
/// exactly when no earlier call was about it.
pub open spec fn expansion_step<K: DenseKey>(calls: Seq<TraceCall<K>>, i: int, g: DirtyGraph<K>, channel: Channel, within: Within<'_, K>) -> bool {
    match calls[i] {
        TraceCall::CausedBy(k, because, ch, newly) => {
            &&& ch == channel
            &&& g.rdeps(because, channel.idx()).contains(k)
            &&& within_allows(g, channel.idx(), within, k)
            &&& reported_before(calls, i, because)
            &&& newly == !reported_before(calls, i, k)
        },
        TraceCall::Root(..) => false,
    }
}

/// The edge a trace call reports: the key and the key it was reached
/// through (a root is reached through itself).
pub open spec fn call_edge<K>(call: TraceCall<K>) -> (K, K) {
    match call {
        TraceCall::Root(k, _, _) => (k, k),
        TraceCall::CausedBy(k, because, _, _) => (k, because),
    }
}

/// The permitted dependents of `p`, each as an edge to `p`, in the order
/// the graph lists them.
pub open spec fn edges_from<K: DenseKey>(g: DirtyGraph<K>, c: nat, within: Within<'_, K>, p: K) -> Seq<(K, K)> {
    g.rdeps(p, c).filter(|d: K| within_allows(g, c, within, d)).map_values(|d: K| (d, p))
}

/// The edges from each key of `keys` in turn.
pub open spec fn edges_from_all<K: DenseKey>(g: DirtyGraph<K>, c: nat, within: Within<'_, K>, keys: Seq<K>) -> Seq<(K, K)>
    decreases keys.len(),
{
    if keys.len() == 0 {
        Seq::empty()
    } else {
        edges_from_all(g, c, within, keys.drop_last()) + edges_from(g, c, within, keys.last())
    }
}

/// After the first `n` calls, `calls` report the edges from each key of
/// `visited` in turn, and `visited` holds each newly reached key once.
pub open spec fn expansion_visits<K: DenseKey>(
    calls: Seq<TraceCall<K>>,
    n: int,
    g: DirtyGraph<K>,
    c: nat,
    within: Within<'_, K>,
    visited: Seq<K>,
) -> bool {
    &&& calls.skip(n).map_values(|t: TraceCall<K>| call_edge(t)) == edges_from_all(g, c, within, visited)
    &&& visited.no_duplicates()
    &&& visited.to_set() == newly_reported(calls).to_set()
}

/// `calls` is what expanding `roots` in `channel` reports: a `root` call for
/// each permitted root in order, then, for each key reached in some order,
/// one `caused_by` call for each of its permitted dependents, and nothing
/// else.
pub open spec fn traced_expansion<K: DenseKey>(
    calls: Seq<TraceCall<K>>,
    g: DirtyGraph<K>,
    channel: Channel,
    within: Within<'_, K>,
    roots: Seq<K>,
) -> bool {
    let permitted = roots.filter(|k: K| within_allows(g, channel.idx(), within, k));
    &&& permitted.len() <= calls.len()
    &&& forall|i: int| 0 <= i < permitted.len()
        ==> #[trigger] calls[i] == TraceCall::Root(permitted[i], channel, !reported_before(calls, i, permitted[i]))
    &&& forall|i: int| permitted.len() <= i < calls.len() ==> #[trigger] expansion_step(calls, i, g, channel, within)
    &&& exists|visited: Seq<K>| #[trigger] expansion_visits(calls, permitted.len() as int, g, channel.idx(), within, visited)
}

/// Appending a call keeps what was reported before each earlier position.
proof fn lemma_reported_push<K>(calls: Seq<TraceCall<K>>, x: TraceCall<K>)
    ensures
        forall|i: int, k: K| 0 <= i <= calls.len() ==> #[trigger] reported_before(calls.push(x), i, k) == reported_before(calls, i, k),
        forall|k: K| #[trigger] reported_before(calls.push(x), calls.len() + 1int, k) == (reported_before(calls, calls.len() as int, k) || call_key(x) == k),
        newly_reported(calls.push(x)) == if call_newly(x) { newly_reported(calls).push(call_key(x)) } else { newly_reported(calls) },
{
    let t = calls.push(x);
    assert forall|i: int, k: K| 0 <= i <= calls.len() implies #[trigger] reported_before(t, i, k) == reported_before(calls, i, k) by {
        if reported_before(t, i, k) {
            let j = choose|j: int| 0 <= j < i && #[trigger] call_key(t[j]) == k;
            assert(call_key(calls[j]) == k);
        }
        if reported_before(calls, i, k) {
            let j = choose|j: int| 0 <= j < i && #[trigger] call_key(calls[j]) == k;
            assert(call_key(t[j]) == k);
        }
    }
    assert forall|k: K| #[trigger] reported_before(t, calls.len() + 1int, k) == (reported_before(calls, calls.len() as int, k) || call_key(x) == k) by {
        if reported_before(t, calls.len() + 1int, k) {
            let j = choose|j: int| 0 <= j < calls.len() + 1 && #[trigger] call_key(t[j]) == k;
            if j < calls.len() {
                assert(call_key(calls[j]) == k);
            }
        }
        if reported_before(calls, calls.len() as int, k) {
            let j = choose|j: int| 0 <= j < calls.len() && #[trigger] call_key(calls[j]) == k;
            assert(call_key(t[j]) == k);
        }
        if call_key(x) == k {
            assert(call_key(t[calls.len() as int]) == k);
        }
    }
    let pred = |t: TraceCall<K>| call_newly(t);
    calls.lemma_filter_push(x, pred);
    let f = |t: TraceCall<K>| call_key(t);
    if call_newly(x) {
        assert(calls.filter(pred).push(x).map_values(f) =~= calls.filter(pred).map_values(f).push(call_key(x)));
    }
}

/// `log` holds one `root` call per key of `roots`, in order, each newly
/// reached exactly when no earlier call was about it; the newly reached keys
/// are `out`, and the calls are about exactly the keys of `out`.
#[verifier::opaque]
spec fn roots_logged<K>(log: Seq<TraceCall<K>>, roots: Seq<K>, channel: Channel, out: Seq<K>) -> bool {
    &&& log.len() == roots.len()
    &&& forall|m: int| 0 <= m < log.len() ==> #[trigger] log[m] == TraceCall::Root(roots[m], channel, !reported_before(log, m, roots[m]))
    &&& newly_reported(log) == out
    &&& forall|k: K| #[trigger] reported_before(log, log.len() as int, k) <==> out.contains(k)
}

/// Reporting one more root keeps the root log in step with the expansion.
proof fn lemma_root_logged<K>(log: Seq<TraceCall<K>>, roots: Seq<K>, channel: Channel, out: Seq<K>, next_out: Seq<K>, root: K, newly: bool)
    requires
        roots_logged(log, roots, channel, out),
        newly ==> !out.contains(root) && next_out == out.push(root),
        !newly ==> out.contains(root) && next_out == out,
    ensures
        roots_logged(log.push(TraceCall::Root(root, channel, newly)), roots.push(root), channel, next_out),
{
    reveal(roots_logged);
    let x = TraceCall::Root(root, channel, newly);
    let t = log.push(x);
    let r = roots.push(root);
    lemma_reported_push(log, x);
    assert forall|m: int| 0 <= m < t.len() implies #[trigger] t[m] == TraceCall::Root(r[m], channel, !reported_before(t, m, r[m])) by {
        if m < log.len() {
            assert(t[m] == log[m]);
        }
    }
    assert forall|k: K| #[trigger] reported_before(t, t.len() as int, k) <==> next_out.contains(k) by {
        lemma_push_contains(out, root);
    }
}

/// During an expansion: after the first `n` calls, `log` reports the edges
/// from each key of `visited` in turn and then `pending`; every reached key
/// of `out` has been visited, waits on `stack`, or is `current`.
#[verifier::opaque]
spec fn visits_logged<K: DenseKey>(
    log: Seq<TraceCall<K>>,
    n: int,
    g: DirtyGraph<K>,
    c: nat,
    within: Within<'_, K>,
    visited: Seq<K>,
    stack: Seq<K>,
    out: Seq<K>,
    current: Option<K>,
    pending: Seq<(K, K)>,
) -> bool {
    &&& log.skip(n).map_values(|t: TraceCall<K>| call_edge(t)) == edges_from_all(g, c, within, visited) + pending
    &&& visited.no_duplicates()
    &&& forall|k: K| #[trigger] out.contains(k) <==> (visited.contains(k) || stack.contains(k) || current == Some(k))
    &&& forall|k: K| #[trigger] visited.contains(k) ==> !stack.contains(k) && current != Some(k)
}

/// Before any key is visited, every reached key waits on the stack.
proof fn lemma_visits_start<K: DenseKey>(log: Seq<TraceCall<K>>, g: DirtyGraph<K>, c: nat, within: Within<'_, K>, out: Seq<K>)
    ensures
        visits_logged(log, log.len() as int, g, c, within, Seq::empty(), out, out, None, Seq::empty()),
{
    reveal(visits_logged);
    assert(log.skip(log.len() as int).map_values(|t: TraceCall<K>| call_edge(t)) =~= Seq::<(K, K)>::empty());
    assert(edges_from_all(g, c, within, Seq::<K>::empty()) + Seq::<(K, K)>::empty() =~= Seq::<(K, K)>::empty());
}

/// Taking `current` off the stack to visit it.
proof fn lemma_visits_take<K: DenseKey>(
    log: Seq<TraceCall<K>>,
    n: int,
    g: DirtyGraph<K>,
    c: nat,
    within: Within<'_, K>,
    visited: Seq<K>,
    stack: Seq<K>,
    out: Seq<K>,
    current: K,
)
    requires
        visits_logged(log, n, g, c, within, visited, stack.push(current), out, None, Seq::empty()),
        !stack.contains(current),
    ensures
        visits_logged(log, n, g, c, within, visited, stack, out, Some(current), Seq::empty()),
{
    reveal(visits_logged);
    lemma_push_contains(stack, current);
}

/// Reporting the edge from `current` to `d`, which is newly reached (and
/// pushed) or not.
proof fn lemma_visits_edge<K: DenseKey>(
    log: Seq<TraceCall<K>>,
    n: int,
    g: DirtyGraph<K>,
    c: nat,
    within: Within<'_, K>,
    visited: Seq<K>,
    stack: Seq<K>,
    out: Seq<K>,
    current: K,
    pending: Seq<(K, K)>,
    d: K,
    channel: Channel,
    newly: bool,
)
    requires
        0 <= n <= log.len(),
        visits_logged(log, n, g, c, within, visited, stack, out, Some(current), pending),
        newly ==> !out.contains(d),
        !newly ==> out.contains(d),
    ensures
        visits_logged(
            log.push(TraceCall::CausedBy(d, current, channel, newly)),
            n,
            g,
            c,
            within,
            visited,
            if newly { stack.push(d) } else { stack },
            if newly { out.push(d) } else { out },
            Some(current),
            pending.push((d, current)),
        ),
{
    reveal(visits_logged);
    let x = TraceCall::CausedBy(d, current, channel, newly);
    let f = |t: TraceCall<K>| call_edge(t);
    assert(log.push(x).skip(n) =~= log.skip(n).push(x));
    assert(log.skip(n).push(x).map_values(f) =~= log.skip(n).map_values(f).push((d, current)));
    assert(edges_from_all(g, c, within, visited) + pending.push((d, current)) =~= (edges_from_all(g, c, within, visited)
        + pending).push((d, current)));
    lemma_push_contains(stack, d);
    lemma_push_contains(out, d);
}

/// Finishing the visit of `current`, whose permitted dependents have all
/// been reported.
proof fn lemma_visits_done<K: DenseKey>(
    log: Seq<TraceCall<K>>,
    n: int,
    g: DirtyGraph<K>,
    c: nat,
    within: Within<'_, K>,
    visited: Seq<K>,
    stack: Seq<K>,
    out: Seq<K>,
    current: K,
)
    requires
        visits_logged(log, n, g, c, within, visited, stack, out, Some(current), edges_from(g, c, within, current)),
        !stack.contains(current),
    ensures
        visits_logged(log, n, g, c, within, visited.push(current), stack, out, None, Seq::empty()),
{
    reveal(visits_logged);
    let v = visited.push(current);
    assert(v.drop_last() =~= visited);
    assert(edges_from_all(g, c, within, v) + Seq::<(K, K)>::empty() =~= edges_from_all(g, c, within, v));
    lemma_push_contains(visited, current);
    assert(v.no_duplicates()) by {
        assert forall|a: int, b: int| 0 <= a < v.len() && 0 <= b < v.len() && a != b implies v[a] != v[b] by {
            if a == visited.len() {
                assert(visited.contains(v[b]));
            } else if b == visited.len() {
                assert(visited.contains(v[a]));
            }
        }
    }
}

/// With nothing left on the stack, the visits are those of every reached
/// key.
proof fn lemma_visits_end<K: DenseKey>(
    log: Seq<TraceCall<K>>,
    n: int,
    g: DirtyGraph<K>,
    c: nat,
    within: Within<'_, K>,
    visited: Seq<K>,
    out: Seq<K>,
)
    requires
        visits_logged(log, n, g, c, within, visited, Seq::empty(), out, None, Seq::empty()),
        newly_reported(log) == out,
    ensures
        expansion_visits(log, n, g, c, within, visited),
{
    reveal(visits_logged);
    assert(edges_from_all(g, c, within, visited) + Seq::<(K, K)>::empty() =~= edges_from_all(g, c, within, visited));
    assert(visited.to_set() =~= out.to_set());
}

/// An expansion step stays a step when further calls follow.
proof fn lemma_expansion_step_push<K: DenseKey>(calls: Seq<TraceCall<K>>, x: TraceCall<K>, i: int, g: DirtyGraph<K>, channel: Channel, within: Within<'_, K>)
    requires
        0 <= i < calls.len(),
        expansion_step(calls, i, g, channel, within),
    ensures
        expansion_step(calls.push(x), i, g, channel, within),
{
    lemma_reported_push(calls, x);
    assert(calls.push(x)[i] == calls[i]);
}

/// Filtering keeps a sequence whose elements all pass.
proof fn lemma_filter_keeps_all<A>(t: Seq<A>, p: spec_fn(A) -> bool)
    requires
        forall|i: int| 0 <= i < t.len() ==> p(#[trigger] t[i]),
    ensures
        t.filter(p) == t,
    decreases t.len(),
{
    if t.len() > 0 {
        let u = t.drop_last();
        lemma_filter_keeps_all(u, p);
        u.lemma_filter_push(t.last(), p);
        assert(u.push(t.last()) =~= t);
    } else {
        t.filter_lemma(p);
        assert(t.filter(p) =~= t);
    }
}

/// Un-marks and returns the dirty keys of `channel` that `within` permits,
/// in marking order; the others stay dirty.
fn take_roots<K: DenseKey>(dirty: &mut DirtySet<K>, graph: &DirtyGraph<K>, channel: Channel, within: &Within<'_, K>, allowed: &IndexSet) -> (roots: Vec<K>)
    requires
        old(dirty).wf(),
        allowed_matches(*graph, channel.idx(), *within, allowed.contents()),
    ensures
        final(dirty).wf(),
        roots@.no_duplicates(),
        forall|k: K| #[trigger] roots@.contains(k)
            <==> (old(dirty).keys(channel.idx()).contains(k) && within_allows(*graph, channel.idx(), *within, k)),
        roots@.filter(|k: K| within_allows(*graph, channel.idx(), *within, k))
            == old(dirty).keys(channel.idx()).filter(|k: K| within_allows(*graph, channel.idx(), *within, k)),
        forall|k: K| #[trigger] final(dirty).keys(channel.idx()).contains(k)
            <==> (old(dirty).keys(channel.idx()).contains(k) && !within_allows(*graph, channel.idx(), *within, k)),
        forall|c: nat| c != channel.idx() ==> #[trigger] final(dirty).keys(c) == old(dirty).keys(c),
        final(dirty).gen() == old(dirty).gen(),
{
    let ghost c = channel.idx();
    let ghost pred = |k: K| within_allows(*graph, c, *within, k);
    match *within {
        Within::All => {
            proof {
                dirty.lemma_wf_facts();
            }
            dirty.drain(channel)
        },
        _ => {
            let all = dirty.iter(channel);
            proof {
                dirty.lemma_wf_facts();
            }
            let mut roots: Vec<K> = Vec::new();
            let mut i: usize = 0;
            while i < all.len()
                invariant
                    allowed_matches(*graph, c, *within, allowed.contents()),
                    c == channel.idx(),
                    pred == (|k: K| within_allows(*graph, c, *within, k)),
                    i <= all@.len(),
                    roots@ == all@.subrange(0, i as int).filter(pred),
                decreases all@.len() - i,
            {
                let k = all[i];
                proof {
                    all@.subrange(0, i as int).lemma_filter_push(k, pred);
                    assert(all@.subrange(0, i + 1) == all@.subrange(0, i as int).push(k));
                }
                if is_allowed(graph, channel, within, k, allowed) {
                    roots.push(k);
                }
                i += 1;
            }
            proof {
                assert(all@.subrange(0, i as int) == all@);
                lemma_filter_no_dup(all@, pred);
                all@.filter_lemma(pred);
                lemma_filter_keeps_all(roots@, pred);
            }
            let ghost before = *dirty;
            let mut j: usize = 0;
            while j < roots.len()
                invariant
                    dirty.wf(),
                    c == channel.idx(),
                    j <= roots@.len(),
                    roots@.no_duplicates(),
                    forall|k: K| #[trigger] dirty.keys(c).contains(k)
                        <==> (before.keys(c).contains(k) && !roots@.subrange(0, j as int).contains(k)),
                    forall|c2: nat| c2 != c ==> #[trigger] dirty.keys(c2) == before.keys(c2),
                    dirty.gen() == before.gen(),
                decreases roots@.len() - j,
            {
                let ghost prev = dirty.keys(c);
                proof {
                    dirty.lemma_wf_facts();
                    lemma_seq_remove_key(prev, roots@[j as int]);
                    assert(roots@.subrange(0, j + 1) == roots@.subrange(0, j as int).push(roots@[j as int]));
                    lemma_push_contains(roots@.subrange(0, j as int), roots@[j as int]);
                }
                let _ = dirty.take(roots[j], channel);
                j += 1;
            }
            proof {
                assert(roots@.subrange(0, j as int) == roots@);
                assert forall|k: K| #[trigger] dirty.keys(c).contains(k)
                    <==> (old(dirty).keys(c).contains(k) && !within_allows(*graph, c, *within, k)) by {
                    assert(pred(k) == within_allows(*graph, c, *within, k));
                }
                assert forall|k: K| #[trigger] roots@.contains(k)
                    <==> (old(dirty).keys(c).contains(k) && within_allows(*graph, c, *within, k)) by {
                    assert(pred(k) == within_allows(*graph, c, *within, k));
                }
            }
            roots
        },
    }
}

/// Expands `roots` to every permitted key that depends on one of them
/// through permitted keys (roots first, then in depth-first discovery
/// order), reporting each root and each followed edge to `trace`.
#[verifier::rlimit(80)]
fn collect_affected<K: DenseKey, T: DirtyTrace<K>>(
    graph: &DirtyGraph<K>,
    channel: Channel,
    roots: Vec<K>,
    within: &Within<'_, K>,
    allowed: &IndexSet,
    scratch: &mut TraversalScratch<K>,
    trace: &mut T,
) -> (out: Vec<K>)
    requires
        graph.wf(),
        allowed_matches(*graph, channel.idx(), *within, allowed.contents()),
    ensures
        out@.no_duplicates(),
        forall|k: K| #[trigger] out@.contains(k) <==> affected_within(*graph, channel.idx(), *within, roots@.to_set(), k),
        old(trace).obeys_call_log_spec() ==> final(trace).obeys_call_log_spec()
            && old(trace).calls().len() <= final(trace).calls().len()
            && final(trace).calls().take(old(trace).calls().len() as int) == old(trace).calls()
            && traced_expansion(final(trace).calls().skip(old(trace).calls().len() as int), *graph, channel, *within, roots@)
            && newly_reported(final(trace).calls().skip(old(trace).calls().len() as int)) == out@,
{
    let ghost c = channel.idx();
    let ghost rs = roots@.to_set();
    let ghost pred = |k: K| within_allows(*graph, c, *within, k);
    let ghost mut log: Seq<TraceCall<K>> = Seq::empty();
    let ghost mut seen_roots: Seq<K> = Seq::empty();

    let mut out: Vec<K> = Vec::new();
    scratch.reset();
    proof {
        assert(roots@.subrange(0, 0) =~= Seq::<K>::empty());
        assert(newly_reported(log) =~= out@);
        reveal(roots_logged);
        graph.lemma_wf_facts();
        <usize as vstd::set_lib::FiniteFull>::full_properties();
        vstd::set_lib::lemma_len_subset(scratch.visited.contents(), Set::<usize>::full());
    }
    let mut i: usize = 0;
    while i < roots.len()
        invariant
            graph.wf(),
            allowed_matches(*graph, c, *within, allowed.contents()),
            c == channel.idx(),
            rs == roots@.to_set(),
            i <= roots@.len(),
            Set::<usize>::full().finite(),
            scratch.visited.contents().finite(),
            scratch.visited.contents().len() <= Set::<usize>::full().len(),
            out@.no_duplicates(),
            forall|j: usize| #[trigger] scratch.visited.contents().contains(j) <==> key_indices(out@).contains(j as int),
            scratch.stack@ == out@,
            forall|k: K| #[trigger] out@.contains(k) ==> affected_within(*graph, c, *within, rs, k),
            forall|m: int| 0 <= m < i && within_allows(*graph, c, *within, roots@[m]) ==> out@.contains(#[trigger] roots@[m]),
            pred == (|k: K| within_allows(*graph, c, *within, k)),
            seen_roots == roots@.subrange(0, i as int).filter(pred),
            roots_logged(log, seen_roots, channel, out@),
            old(trace).obeys_call_log_spec() ==> trace.obeys_call_log_spec() && trace.calls() == old(trace).calls() + log,
        decreases roots@.len() - i,
    {
        let root = roots[i];
        proof {
            roots@.subrange(0, i as int).lemma_filter_push(root, pred);
            assert(roots@.subrange(0, i + 1) == roots@.subrange(0, i as int).push(root));
            assert(rs.contains(root)) by { assert(roots@.contains(root)) by { assert(roots@[i as int] == root); } }
        }
        if is_allowed(graph, channel, within, root, allowed) {
            let ghost old_out = out@;
            let newly = scratch.visited.insert(root.index());
            if newly {
                proof {
                    vstd::set_lib::lemma_len_subset(scratch.visited.contents(), Set::<usize>::full());
                    assert(!out@.contains(root)) by {
                        if out@.contains(root) {
                            let m = choose|m: int| 0 <= m < out@.len() && out@[m] == root;
                            assert(key_indices(out@)[m] == root.spec_index() as int);
                        }
                    }
                    lemma_push_fresh(out@, root);
                    lemma_affected_root(*graph, c, *within, rs, root);
                }
                out.push(root);
                scratch.stack.push(root);
                proof {
                    lemma_push_contains(old_out, root);
                    assert forall|j: usize| #[trigger] scratch.visited.contents().contains(j) <==> key_indices(out@).contains(j as int) by {
                        if key_indices(out@).contains(j as int) {
                            let m = choose|m: int| 0 <= m < key_indices(out@).len() && key_indices(out@)[m] == j as int;
                            if m < old_out.len() {
                                assert(key_indices(old_out)[m] == j as int);
                            }
                        }
                        if key_indices(old_out).contains(j as int) {
                            let m = choose|m: int| 0 <= m < key_indices(old_out).len() && key_indices(old_out)[m] == j as int;
                            assert(key_indices(out@)[m] == j as int);
                        }
                        if j == root.spec_index() {
                            assert(key_indices(out@)[old_out.len() as int] == j as int);
                        }
                    }
                }
            } else {
                proof {
                    assert(key_indices(out@).contains(root.spec_index() as int));
                    let m = choose|m: int| 0 <= m < key_indices(out@).len() && key_indices(out@)[m] == root.spec_index() as int;
                    K::lemma_index_injective(out@[m], root);
                    assert(out@.contains(root));
                }
            }
            trace.root(root, channel, newly);
            proof {
                lemma_root_logged(log, seen_roots, channel, old_out, out@, root, newly);
                let x = TraceCall::Root(root, channel, newly);
                if old(trace).obeys_call_log_spec() {
                    assert(old(trace).calls() + log.push(x) =~= (old(trace).calls() + log).push(x));
                }
                log = log.push(x);
                seen_roots = seen_roots.push(root);
            }
        }
        i += 1;
    }
    let ghost ar = roots@.filter(pred);
    let ghost mut visited: Seq<K> = Seq::empty();
    proof {
        assert(roots@.subrange(0, i as int) == roots@);
        assert(seen_roots == ar);
        reveal(roots_logged);
        lemma_visits_start(log, *graph, c, *within, out@);
    }
    while scratch.stack.len() > 0
        invariant
            graph.wf(),
            allowed_matches(*graph, c, *within, allowed.contents()),
            c == channel.idx(),
            rs == roots@.to_set(),
            Set::<usize>::full().finite(),
            scratch.visited.contents().finite(),
            scratch.visited.contents().len() <= Set::<usize>::full().len(),
            out@.no_duplicates(),
            forall|j: usize| #[trigger] scratch.visited.contents().contains(j) <==> key_indices(out@).contains(j as int),
            forall|k: K| #[trigger] out@.contains(k) ==> affected_within(*graph, c, *within, rs, k),
            forall|r: K| #[trigger] rs.contains(r) && within_allows(*graph, c, *within, r) ==> out@.contains(r),
            scratch.stack@.no_duplicates(),
            forall|k: K| #[trigger] scratch.stack@.contains(k) ==> out@.contains(k),
            forall|k: K, d: K| out@.contains(k) && !scratch.stack@.contains(k) && #[trigger] graph.rdeps(k, c).contains(d)
                && within_allows(*graph, c, *within, d) ==> out@.contains(d),
            ar == roots@.filter(|k: K| within_allows(*graph, c, *within, k)),
            ar.len() <= log.len(),
            forall|m: int| 0 <= m < ar.len() ==> #[trigger] log[m] == TraceCall::Root(ar[m], channel, !reported_before(log, m, ar[m])),
            forall|m: int| ar.len() <= m < log.len() ==> #[trigger] expansion_step(log, m, *graph, channel, *within),
            newly_reported(log) == out@,
            forall|k: K| #[trigger] reported_before(log, log.len() as int, k) <==> out@.contains(k),
            old(trace).obeys_call_log_spec() ==> trace.obeys_call_log_spec() && trace.calls() == old(trace).calls() + log,
            visits_logged(log, ar.len() as int, *graph, c, *within, visited, scratch.stack@, out@, None, Seq::empty()),
            pred == (|k: K| within_allows(*graph, c, *within, k)),
        decreases Set::<usize>::full().len() - scratch.visited.contents().len(), scratch.stack@.len(),
    {
        let ghost old_stack = scratch.stack@;
        let because = scratch.stack.pop().unwrap();
        proof {
            assert(old_stack == scratch.stack@.push(because));
            assert(old_stack.contains(because)) by { assert(old_stack[old_stack.len() - 1] == because); }
            assert(!scratch.stack@.contains(because)) by {
                if scratch.stack@.contains(because) {
                    let j = choose|j: int| 0 <= j < scratch.stack@.len() && scratch.stack@[j] == because;
                    assert(old_stack[j] == old_stack[old_stack.len() - 1]);
                }
            }
            assert forall|k: K| #[trigger] scratch.stack@.contains(k) implies old_stack.contains(k) by {
                let j = choose|j: int| 0 <= j < scratch.stack@.len() && scratch.stack@[j] == k;
                assert(old_stack[j] == k);
            }
            lemma_visits_take(log, ar.len() as int, *graph, c, *within, visited, scratch.stack@, out@, because);
        }
        let dependents = graph.dependents(because, channel);
        proof {
            assert(dependents@.take(0).filter(pred).map_values(|d: K| (d, because)) =~= Seq::<(K, K)>::empty()) by {
                assert(dependents@.take(0) =~= Seq::<K>::empty());
                dependents@.take(0).filter_lemma(pred);
            }
        }
        let ghost base_stack = scratch.stack@;
        let ghost base_out = out@;
        let ghost base_len = scratch.visited.contents().len();
        let mut j: usize = 0;
        while j < dependents.len()
            invariant
                graph.wf(),
                allowed_matches(*graph, c, *within, allowed.contents()),
                c == channel.idx(),
                rs == roots@.to_set(),
                Set::<usize>::full().finite(),
                scratch.visited.contents().finite(),
                scratch.visited.contents().len() <= Set::<usize>::full().len(),
                dependents@ == graph.rdeps(because, c),
                j <= dependents@.len(),
                scratch.stack@.len() + base_len == base_stack.len() + scratch.visited.contents().len(),
                base_len <= scratch.visited.contents().len(),
                out@.no_duplicates(),
                out@.contains(because),
                base_out.len() <= out@.len(),
                forall|m: int| 0 <= m < base_out.len() ==> #[trigger] out@[m] == base_out[m],
                forall|q: usize| #[trigger] scratch.visited.contents().contains(q) <==> key_indices(out@).contains(q as int),
                forall|k: K| #[trigger] out@.contains(k) ==> affected_within(*graph, c, *within, rs, k),
                scratch.stack@.no_duplicates(),
                !scratch.stack@.contains(because),
                forall|k: K| #[trigger] scratch.stack@.contains(k) ==> out@.contains(k),
                forall|k: K| #[trigger] out@.contains(k) && !base_out.contains(k) ==> scratch.stack@.contains(k),
                forall|k: K| #[trigger] base_stack.contains(k) ==> scratch.stack@.contains(k),
                forall|m: int| 0 <= m < j && within_allows(*graph, c, *within, dependents@[m]) ==> out@.contains(#[trigger] dependents@[m]),
                forall|k: K, d: K| base_out.contains(k) && !base_stack.contains(k) && k != because && #[trigger] graph.rdeps(k, c).contains(d)
                    && within_allows(*graph, c, *within, d) ==> base_out.contains(d),
                ar == roots@.filter(|k: K| within_allows(*graph, c, *within, k)),
                ar.len() <= log.len(),
                forall|m: int| 0 <= m < ar.len() ==> #[trigger] log[m] == TraceCall::Root(ar[m], channel, !reported_before(log, m, ar[m])),
                forall|m: int| ar.len() <= m < log.len() ==> #[trigger] expansion_step(log, m, *graph, channel, *within),
                newly_reported(log) == out@,
                forall|k: K| #[trigger] reported_before(log, log.len() as int, k) <==> out@.contains(k),
                old(trace).obeys_call_log_spec() ==> trace.obeys_call_log_spec() && trace.calls() == old(trace).calls() + log,
                pred == (|k: K| within_allows(*graph, c, *within, k)),
                visits_logged(log, ar.len() as int, *graph, c, *within, visited, scratch.stack@, out@, Some(because),
                    dependents@.take(j as int).filter(pred).map_values(|d: K| (d, because))),
            decreases dependents@.len() - j,
        {
            let dependent = dependents[j];
            let ghost old_out = out@;
            let ghost old_stack2 = scratch.stack@;
            let ghost old_log2 = log;
            proof {
                dependents@.take(j as int).lemma_filter_push(dependent, pred);
                assert(dependents@.take(j + 1) =~= dependents@.take(j as int).push(dependent));
            }
            proof {
                graph.lemma_wf_facts();
                assert(graph.rdeps(because, c).contains(dependent));
                assert(graph.deps(dependent, c).contains(because));
            }
            if is_allowed(graph, channel, within, dependent, allowed) {
                proof {
                    lemma_affected_extend(*graph, c, *within, rs, because, dependent);
                }
                let newly = scratch.visited.insert(dependent.index());
                trace.caused_by(dependent, because, channel, newly);
                if newly {
                    proof {
                        vstd::set_lib::lemma_len_subset(scratch.visited.contents(), Set::<usize>::full());
                        assert(!out@.contains(dependent)) by {
                            if out@.contains(dependent) {
                                let m = choose|m: int| 0 <= m < out@.len() && out@[m] == dependent;
                                assert(key_indices(out@)[m] == dependent.spec_index() as int);
                            }
                        }
                        lemma_push_fresh(out@, dependent);
                        assert(!scratch.stack@.contains(dependent));
                        lemma_push_fresh(scratch.stack@, dependent);
                    }
                    out.push(dependent);
                    scratch.stack.push(dependent);
                    proof {
                        lemma_push_contains(old_out, dependent);
                        assert forall|q: usize| #[trigger] scratch.visited.contents().contains(q) <==> key_indices(out@).contains(q as int) by {
                            if key_indices(out@).contains(q as int) {
                                let m = choose|m: int| 0 <= m < key_indices(out@).len() && key_indices(out@)[m] == q as int;
                                if m < old_out.len() {
                                    assert(key_indices(old_out)[m] == q as int);
                                }
                            }
                            if key_indices(old_out).contains(q as int) {
                                let m = choose|m: int| 0 <= m < key_indices(old_out).len() && key_indices(old_out)[m] == q as int;
                                assert(key_indices(out@)[m] == q as int);
                            }
                            if q == dependent.spec_index() {
                                assert(key_indices(out@)[old_out.len() as int] == q as int);
                            }
                        }
                    }
                } else {
                    proof {
                        assert(key_indices(out@).contains(dependent.spec_index() as int));
                        let m = choose|m: int| 0 <= m < key_indices(out@).len() && key_indices(out@)[m] == dependent.spec_index() as int;
                        K::lemma_index_injective(out@[m], dependent);
                        assert(out@.contains(dependent));
                    }
                }
                proof {
                    let old_log = log;
                    let x = TraceCall::CausedBy(dependent, because, channel, newly);
                    lemma_visits_edge(log, ar.len() as int, *graph, c, *within, visited, old_stack2, old_out, because,
                        dependents@.take(j as int).filter(pred).map_values(|d: K| (d, because)), dependent, channel, newly);
                    if old(trace).obeys_call_log_spec() {
                        assert(old(trace).calls() + old_log.push(x) =~= (old(trace).calls() + old_log).push(x));
                    }
                    lemma_reported_push(old_log, x);
                    log = log.push(x);
                    assert forall|m: int| 0 <= m < ar.len() implies #[trigger] log[m] == TraceCall::Root(ar[m], channel, !reported_before(log, m, ar[m])) by {
                        assert(log[m] == old_log[m]);
                    }
                    assert forall|m: int| ar.len() <= m < log.len() implies #[trigger] expansion_step(log, m, *graph, channel, *within) by {
                        if m < old_log.len() {
                            lemma_expansion_step_push(old_log, x, m, *graph, channel, *within);
                        } else {
                            assert(log[m] == x);
                            assert(reported_before(old_log, old_log.len() as int, because));
                        }
                    }
                    assert forall|k: K| #[trigger] reported_before(log, log.len() as int, k) <==> out@.contains(k) by {
                        lemma_push_contains(old_out, dependent);
                    }
                }
            }
            proof {
                let pe = dependents@.take(j as int).filter(pred).map_values(|d: K| (d, because));
                if pred(dependent) {
                    assert(dependents@.take(j + 1).filter(pred).map_values(|d: K| (d, because)) =~= pe.push((dependent, because)));
                } else {
                    assert(dependents@.take(j + 1).filter(pred) == dependents@.take(j as int).filter(pred));
                }
            }
            j += 1;
        }
        proof {
            assert(dependents@.take(j as int) =~= dependents@);
            lemma_visits_done(log, ar.len() as int, *graph, c, *within, visited, scratch.stack@, out@, because);
            visited = visited.push(because);
        }
        proof {
            assert forall|r: K| #[trigger] rs.contains(r) && within_allows(*graph, c, *within, r) implies out@.contains(r) by {
                assert(base_out.contains(r));
                let m = choose|m: int| 0 <= m < base_out.len() && base_out[m] == r;
                assert(out@[m] == r);
            }
            assert forall|k: K, d: K| out@.contains(k) && !scratch.stack@.contains(k) && #[trigger] graph.rdeps(k, c).contains(d)
                && within_allows(*graph, c, *within, d) implies out@.contains(d) by {
                if k == because {
                    let m = choose|m: int| 0 <= m < dependents@.len() && dependents@[m] == d;
                    assert(out@.contains(dependents@[m]));
                } else {
                    assert(base_out.contains(k));
                    assert(!base_stack.contains(k));
                    assert(base_out.contains(d));
                    let m = choose|m: int| 0 <= m < base_out.len() && base_out[m] == d;
                    assert(out@[m] == d);
                }
            }
        }
    }
    proof {
        assert forall|k: K| #[trigger] out@.contains(k) <==> affected_within(*graph, c, *within, rs, k) by {
            if affected_within(*graph, c, *within, rs, k) {
                let p = choose|p: Seq<K>| #[trigger] allowed_path(*graph, c, *within, p) && p[0] == k && rs.contains(p.last());
                lemma_affected_closed(*graph, c, *within, rs, out@, p, 0);
            }
        }
        assert(scratch.stack@ =~= Seq::<K>::empty());
        lemma_visits_end(log, ar.len() as int, *graph, c, *within, visited, out@);
        if old(trace).obeys_call_log_spec() {
            let n = old(trace).calls().len() as int;
            assert(trace.calls().take(n) =~= old(trace).calls());
            assert(trace.calls().skip(n) =~= log);
        }
    }
    out
}

/// Takes the permitted roots out of `dirty` and returns the keys to drain:
/// the roots themselves, or everything they affect.
fn select_keys<K: DenseKey, T: DirtyTrace<K>>(
    dirty: &mut DirtySet<K>,
    graph: &DirtyGraph<K>,
    channel: Channel,
    mode: DrainMode,
    within: Within<'_, K>,
    scratch: Option<&mut TraversalScratch<K>>,
    trace: Option<&mut T>,
) -> (keys: Vec<K>)
    requires
        old(dirty).wf(),
        graph.wf(),
    ensures
        final(dirty).wf(),
        forall|k: K| #[trigger] final(dirty).keys(channel.idx()).contains(k)
            <==> (old(dirty).keys(channel.idx()).contains(k) && !within_allows(*graph, channel.idx(), within, k)),
        forall|c: nat| c != channel.idx() ==> #[trigger] final(dirty).keys(c) == old(dirty).keys(c),
        final(dirty).gen() == old(dirty).gen(),
        keys@.no_duplicates(),
        keys@.to_set() == drain_keys(*graph, channel.idx(), mode, within, old(dirty).keys(channel.idx())),
        mode == DrainMode::Affected ==> match trace {
            Some(t) => t.obeys_call_log_spec() ==> final(t).obeys_call_log_spec()
                && t.calls().len() <= final(t).calls().len()
                && final(t).calls().take(t.calls().len() as int) == t.calls()
                && traced_expansion(
                    final(t).calls().skip(t.calls().len() as int),
                    *graph,
                    channel,
                    within,
                    old(dirty).keys(channel.idx()),
                )
                && newly_reported(final(t).calls().skip(t.calls().len() as int)) == keys@,
            None => true,
        },
        mode == DrainMode::DirtyOnly ==> match trace {
            Some(t) => *final(t) == *t,
            None => true,
        },
{
    let ghost c = channel.idx();
    let ghost rs = drain_roots(*graph, c, within, old(dirty).keys(c));
    let mut own_scratch: TraversalScratch<K> = TraversalScratch::new();
    let s: &mut TraversalScratch<K> = match scratch {
        Some(s) => s,
        None => &mut own_scratch,
    };
    let allowed = match within {
        Within::DependenciesOf(key) => compute_allowed_dependencies(graph, channel, key, s),
        _ => IndexSet::new(),
    };
    let roots = take_roots(dirty, graph, channel, &within, &allowed);
    proof {
        assert(roots@.to_set() =~= rs);
    }
    match mode {
        DrainMode::DirtyOnly => roots,
        DrainMode::Affected => {
            let keys = match trace {
                Some(t) => collect_affected(graph, channel, roots, &within, &allowed, s, t),
                None => {
                    let mut none = NoTrace;
                    collect_affected(graph, channel, roots, &within, &allowed, s, &mut none)
                },
            };
            proof {
                assert(keys@.to_set() =~= drain_keys(*graph, c, mode, within, old(dirty).keys(c)));
            }
            keys
        },
    }
}

/// A builder that configures and performs a drain of one channel.
///
/// Construct it with [`DirtyTracker::drain`](crate::dirty::DirtyTracker::drain)
/// or [`DrainBuilder::new`]. The `within_*` methods give targeted drains:
/// dirty roots outside the target stay marked for later drains.
pub struct DrainBuilder<'d, 'g, 's, K, O, T> {
    /// The dirty set the roots are taken from.
    pub dirty: &'d mut DirtySet<K>,
    /// The dependency graph that orders the drain.
    pub graph: &'g DirtyGraph<K>,
    /// The channel drained.
    pub channel: Channel,
    /// Roots only, or roots and their dependents.
    pub mode: DrainMode,
    /// Which keys may be drained.
    pub within: Within<'d, K>,
    /// Buffers reused for traversals.
    pub scratch: Option<&'s mut TraversalScratch<K>>,
    /// Receiver for explanations of the affected expansion.
    pub trace: Option<&'s mut T>,
    /// Tie-breaking marker.
    pub order: O,
}

impl<'d, 'g, K: DenseKey> DrainBuilder<'d, 'g, 'd, K, AnyOrder, NoTrace> {
    /// Starts a drain of `channel`: dirty keys only, no restriction, any
    /// order.
    pub fn new(dirty: &'d mut DirtySet<K>, graph: &'g DirtyGraph<K>, channel: Channel) -> (b: Self)
        ensures
            *b.dirty == *old(dirty),
            *final(b.dirty) == *final(dirty),
            b.graph == graph,
            b.channel == channel,
            b.mode == DrainMode::DirtyOnly,
            b.within is All,
            b.trace is None,
    {
        DrainBuilder { dirty, graph, channel, mode: DrainMode::DirtyOnly, within: Within::All, scratch: None, trace: None, order: AnyOrder }
    }
}

impl<'d, 'g, 's, K: DenseKey, O, T: DirtyTrace<K>> DrainBuilder<'d, 'g, 's, K, O, T> {
    /// Drains exactly the keys currently marked dirty (the default).
    pub fn dirty_only(self) -> (b: Self)
        ensures
            *b.dirty == *old(self.dirty),
            *final(b.dirty) == *final(self.dirty),
            b.graph == self.graph,
            b.channel == self.channel,
            b.mode == DrainMode::DirtyOnly,
            b.within == self.within,
            b.trace == self.trace,
    {
        let mut b = self;
        b.mode = DrainMode::DirtyOnly;
        b
    }

    /// Drains the dirty keys plus all of their transitive dependents.
    pub fn affected(self) -> (b: Self)
        ensures
            *b.dirty == *old(self.dirty),
            *final(b.dirty) == *final(self.dirty),
            b.graph == self.graph,
            b.channel == self.channel,
            b.mode == DrainMode::Affected,
            b.within == self.within,
            b.trace == self.trace,
    {
        let mut b = self;
        b.mode = DrainMode::Affected;
        b
    }

    /// Restricts the drain to the keys in `keys`.
    pub fn within_keys(self, keys: &'d [K]) -> (b: Self)
        ensures
            *b.dirty == *old(self.dirty),
            *final(b.dirty) == *final(self.dirty),
            b.graph == self.graph,
            b.channel == self.channel,
            b.mode == self.mode,
            b.within == Within::Keys(keys),
            b.trace == self.trace,
    {
        let mut b = self;
        b.within = Within::Keys(keys);
        b
    }

    /// Restricts the drain to `key` and its transitive dependencies in the
    /// drained channel.
    pub fn within_dependencies_of(self, key: K) -> (b: Self)
        ensures
            *b.dirty == *old(self.dirty),
            *final(b.dirty) == *final(self.dirty),
            b.graph == self.graph,
            b.channel == self.channel,
            b.mode == self.mode,
            b.within == Within::<K>::DependenciesOf(key),
            b.trace == self.trace,
    {
        let mut b = self;
        b.within = Within::DependenciesOf(key);
        b
    }

    /// Reuses `scratch` for internal traversals. Any trace configured before
    /// is dropped; use [`trace`](Self::trace) to configure both.
    pub fn scratch<'s2>(self, scratch: &'s2 mut TraversalScratch<K>) -> (b: DrainBuilder<'d, 'g, 's2, K, O, T>)
        ensures
            *b.dirty == *old(self.dirty),
            *final(b.dirty) == *final(self.dirty),
            b.graph == self.graph,
            b.channel == self.channel,
            b.mode == self.mode,
            b.within == self.within,
            b.trace is None,
    {
        let DrainBuilder { dirty, graph, channel, mode, within, order, .. } = self;
        DrainBuilder { dirty, graph, channel, mode, within, scratch: Some(scratch), trace: None, order }
    }

    /// Records one plausible cause per affected key in `trace` (the first
    /// path discovered), reusing `scratch` for the traversal.
    pub fn trace<'s2, T2: DirtyTrace<K>>(self, scratch: &'s2 mut TraversalScratch<K>, trace: &'s2 mut T2) -> (b: DrainBuilder<'d, 'g, 's2, K, O, T2>)
        ensures
            *b.dirty == *old(self.dirty),
            *final(b.dirty) == *final(self.dirty),
            b.graph == self.graph,
            b.channel == self.channel,
            b.mode == self.mode,
            b.within == self.within,
            b.trace is Some,
            *b.trace->0 == *old(trace),
            *final(b.trace->0) == *final(trace),
    {
        let DrainBuilder { dirty, graph, channel, mode, within, order, .. } = self;
        DrainBuilder { dirty, graph, channel, mode, within, scratch: Some(scratch), trace: Some(trace), order }
    }
}

impl<'d, 'g, 's, K: DenseKey, T: DirtyTrace<K>> DrainBuilder<'d, 'g, 's, K, AnyOrder, T> {
    /// Switches to deterministic tie-breaking.
    pub fn deterministic(self) -> (b: DrainBuilder<'d, 'g, 's, K, DeterministicOrder, T>)
        ensures
            *b.dirty == *old(self.dirty),
            *final(b.dirty) == *final(self.dirty),
            b.graph == self.graph,
            b.channel == self.channel,
            b.mode == self.mode,
            b.within == self.within,
            b.trace == self.trace,
    {
        let DrainBuilder { dirty, graph, channel, mode, within, scratch, trace, .. } = self;
        DrainBuilder { dirty, graph, channel, mode, within, scratch, trace, order: DeterministicOrder }
    }

    /// Takes the selected keys out of the dirty set and returns a drain of
    /// them in topological order.
    pub fn run(self) -> (d: DrainSorted<'g, K>)
        requires
            self.dirty.wf(),
            self.graph.wf(),
        ensures
            final(self.dirty).wf(),
            forall|k: K| #[trigger] final(self.dirty).keys(self.channel.idx()).contains(k)
                <==> (old(self.dirty).keys(self.channel.idx()).contains(k) && !within_allows(*self.graph, self.channel.idx(), self.within, k)),
            forall|c: nat| c != self.channel.idx() ==> #[trigger] final(self.dirty).keys(c) == old(self.dirty).keys(c),
            final(self.dirty).gen() == old(self.dirty).gen(),
            d.wf(),
            d.graph_view() == *self.graph,
            d.channel_view() == self.channel,
            !d.stalled_view(),
            d.pending_set() == drain_keys(*self.graph, self.channel.idx(), self.mode, self.within, old(self.dirty).keys(self.channel.idx())),
            self.mode == DrainMode::Affected ==> match self.trace {
                Some(t) => t.obeys_call_log_spec() ==> final(t).obeys_call_log_spec()
                    && t.calls().len() <= final(t).calls().len()
                    && final(t).calls().take(t.calls().len() as int) == t.calls()
                    && traced_expansion(
                        final(t).calls().skip(t.calls().len() as int),
                        *self.graph,
                        self.channel,
                        self.within,
                        old(self.dirty).keys(self.channel.idx()),
                    )
                    && newly_reported(final(t).calls().skip(t.calls().len() as int)).no_duplicates()
                    && newly_reported(final(t).calls().skip(t.calls().len() as int)).to_set() == d.pending_set(),
                None => true,
            },
            self.mode == DrainMode::DirtyOnly ==> match self.trace {
                Some(t) => *final(t) == *t,
                None => true,
            },
    {
        let DrainBuilder { dirty, graph, channel, mode, within, scratch, trace, .. } = self;
        let keys = select_keys(dirty, graph, channel, mode, within, scratch, trace);
        let cap = keys.len();
        DrainSorted::from_iter_with_capacity(keys, cap, graph, channel)
    }
}

impl<'d, 'g, 's, K: DenseKey, T: DirtyTrace<K>> DrainBuilder<'d, 'g, 's, K, DeterministicOrder, T> {
    /// Takes the selected keys out of the dirty set and returns a drain of
    /// them in topological order, smallest ready key first.
    pub fn run(self) -> (d: DrainSortedDeterministic<'g, K>)
        requires
            self.dirty.wf(),
            self.graph.wf(),
            forall|k: K| #[trigger] self.dirty.keys(self.channel.idx()).contains(k) ==> k.spec_index() < usize::MAX,
        ensures
            final(self.dirty).wf(),
            forall|k: K| #[trigger] final(self.dirty).keys(self.channel.idx()).contains(k)
                <==> (old(self.dirty).keys(self.channel.idx()).contains(k) && !within_allows(*self.graph, self.channel.idx(), self.within, k)),
            forall|c: nat| c != self.channel.idx() ==> #[trigger] final(self.dirty).keys(c) == old(self.dirty).keys(c),
            final(self.dirty).gen() == old(self.dirty).gen(),
            d.wf(),
            d.graph_view() == *self.graph,
            d.channel_view() == self.channel,
            !d.stalled_view(),
            d.pending_set() == drain_keys(*self.graph, self.channel.idx(), self.mode, self.within, old(self.dirty).keys(self.channel.idx())),
            self.mode == DrainMode::Affected ==> match self.trace {
                Some(t) => t.obeys_call_log_spec() ==> final(t).obeys_call_log_spec()
                    && t.calls().len() <= final(t).calls().len()
                    && final(t).calls().take(t.calls().len() as int) == t.calls()
                    && traced_expansion(
                        final(t).calls().skip(t.calls().len() as int),
                        *self.graph,
                        self.channel,
                        self.within,
                        old(self.dirty).keys(self.channel.idx()),
                    )
                    && newly_reported(final(t).calls().skip(t.calls().len() as int)).no_duplicates()
                    && newly_reported(final(t).calls().skip(t.calls().len() as int)).to_set() == d.pending_set(),
                None => true,
            },
            self.mode == DrainMode::DirtyOnly ==> match self.trace {
                Some(t) => *final(t) == *t,
                None => true,
            },
    {
        let ghost c = self.channel.idx();
        let ghost g = *self.graph;
        let ghost w = self.within;
        let ghost m = self.mode;
        let ghost before = self.dirty.keys(c);
        let DrainBuilder { dirty, graph, channel, mode, within, scratch, trace, .. } = self;
        let keys = select_keys(dirty, graph, channel, mode, within, scratch, trace);
        proof {
            g.lemma_wf_facts();
            assert forall|i: int| 0 <= i < keys@.len() implies (#[trigger] keys@[i]).spec_index() < usize::MAX by {
                let k = keys@[i];
                assert(keys@.to_set().contains(k));
                let rs = drain_roots(g, c, w, before);
                if !rs.contains(k) {
                    lemma_affected_root_or_edge(g, c, w, rs, k);
                    assert(g.deps(k, c).contains(g.deps(k, c)[0]));
                }
            }
        }
        let cap = keys.len();
        DrainSortedDeterministic::from_iter_with_capacity(keys, cap, graph, channel)
    }
}

} // verus!
