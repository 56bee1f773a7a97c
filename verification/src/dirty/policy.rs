use vstd::prelude::*;

use super::channel::Channel;
use super::graph::{key_indices, lemma_push_fresh, slot, DirtyGraph};
use super::hashed::IndexSet;
use super::key::DenseKey;
use super::scratch::TraversalScratch;
use super::set::DirtySet;
use super::trace::{call_key, DirtyTrace, TraceCall};

verus! {

/// `key` together with every key that depends on it, directly or
/// transitively, in channel `c`.
pub open spec fn affected_by<K: DenseKey>(graph: DirtyGraph<K>, c: nat, key: K) -> Set<K> {
    Set::new(|k: K| k == key || graph.depends_transitively(c, k, key))
}

/// Call `i` of `calls` reports a key reached in `channel` through a direct
/// dependency on a key reported before it; `newly_dirty` says whether the key
/// was absent from `before`.
pub open spec fn traced_step<K: DenseKey>(calls: Seq<TraceCall<K>>, i: int, graph: DirtyGraph<K>, channel: Channel, before: Seq<K>) -> bool {
    match calls[i] {
        TraceCall::CausedBy(k, because, ch, newly_dirty) => {
            &&& ch == channel
            &&& newly_dirty == !before.contains(k)
            &&& graph.rdeps(because, channel.idx()).contains(k)
            &&& exists|j: int| 0 <= j < i && #[trigger] call_key(calls[j]) == because
        },
        TraceCall::Root(..) => false,
    }
}

/// `calls` is what an eager propagation from `key` in `channel` reports: the
/// root first, then one `caused_by` per transitive dependent, each through a
/// dependency on a key reported earlier, and every affected key exactly once.
/// `before` holds the keys dirty in `channel` beforehand.
pub open spec fn traced_walk<K: DenseKey>(calls: Seq<TraceCall<K>>, graph: DirtyGraph<K>, channel: Channel, key: K, before: Seq<K>) -> bool {
    &&& calls.len() > 0
    &&& calls[0] == TraceCall::Root(key, channel, !before.contains(key))
    &&& forall|i: int| 0 < i < calls.len() ==> #[trigger] traced_step(calls, i, graph, channel, before)
    &&& calls.map_values(|t: TraceCall<K>| call_key(t)).no_duplicates()
    &&& calls.map_values(|t: TraceCall<K>| call_key(t)).to_set() == affected_by(graph, channel.idx(), key)
}

/// A reported step stays a step when further calls follow.
proof fn lemma_traced_step_push<K: DenseKey>(calls: Seq<TraceCall<K>>, x: TraceCall<K>, i: int, graph: DirtyGraph<K>, channel: Channel, before: Seq<K>)
    requires
        0 < i < calls.len(),
        traced_step(calls, i, graph, channel, before),
    ensures
        traced_step(calls.push(x), i, graph, channel, before),
{
    if let TraceCall::CausedBy(k, because, ch, n) = calls[i] {
        let j = choose|j: int| 0 <= j < i && #[trigger] call_key(calls[j]) == because;
        assert(call_key(calls.push(x)[j]) == because);
    }
}

/// Strategy for how dirty marks spread through the dependency graph.
///
/// `propagate` is called to mark `key` in `channel`; the policy may mark any
/// additional keys that should become dirty as a result. Marks are only ever
/// added: a key dirty before stays dirty.
pub trait PropagationPolicy<K: DenseKey> {
    /// Whether `propagate` marks as `propagated` says. Policies that state
    /// their rule set it to `true`; for the others only the clauses of
    /// `propagate` are claimed.
    open spec fn obeys_propagated_spec(&self) -> bool {
        false
    }

    /// Whether marking `key` in `channel` over `graph` may take the dirty set
    /// `before` to `after` under this policy.
    open spec fn propagated(&self, key: K, channel: Channel, graph: DirtyGraph<K>, before: DirtySet<K>, after: DirtySet<K>) -> bool {
        true
    }

    /// Marks `key` and whatever else the policy decides in `dirty`.
    fn propagate(&self, key: K, channel: Channel, graph: &DirtyGraph<K>, dirty: &mut DirtySet<K>)
        requires
            graph.wf(),
            old(dirty).wf(),
        ensures
            final(dirty).wf(),
            final(dirty).keys(channel.idx()).contains(key),
            forall|c: nat, k: K| #[trigger] old(dirty).keys(c).contains(k) ==> final(dirty).keys(c).contains(k),
            self.obeys_propagated_spec() ==> self.propagated(key, channel, *graph, *old(dirty), *final(dirty)),
    ;
}

/// Marks every key of `keys` dirty in `channel`.
pub fn mark_keys<K: DenseKey>(dirty: &mut DirtySet<K>, keys: &Vec<K>, channel: Channel)
    requires
        old(dirty).wf(),
    ensures
        final(dirty).wf(),
        final(dirty).keys(channel.idx()).to_set() == old(dirty).keys(channel.idx()).to_set().union(keys@.to_set()),
        forall|c: nat| c != channel.idx() ==> #[trigger] final(dirty).keys(c) == old(dirty).keys(c),
{
    let ghost c = channel.idx();
    let mut i: usize = 0;
    while i < keys.len()
        invariant
            dirty.wf(),
            c == channel.idx(),
            i <= keys@.len(),
            dirty.keys(c).to_set() == old(dirty).keys(c).to_set().union(keys@.subrange(0, i as int).to_set()),
            forall|c2: nat| c2 != c ==> #[trigger] dirty.keys(c2) == old(dirty).keys(c2),
        decreases keys@.len() - i,
    {
        let ghost before = dirty.keys(c);
        let _ = dirty.mark(keys[i], channel);
        proof {
            assert(keys@.subrange(0, i + 1) == keys@.subrange(0, i as int).push(keys@[i as int]));
            super::graph::lemma_push_contains(keys@.subrange(0, i as int), keys@[i as int]);
            lemma_mark_to_set(before, dirty.keys(c), keys@[i as int]);
            assert(dirty.keys(c).to_set() =~= old(dirty).keys(c).to_set().union(keys@.subrange(0, i + 1).to_set()));
        }
        i += 1;
    }
    proof {
        assert(keys@.subrange(0, i as int) == keys@);
    }
}

/// After marking `k`, the dirty keys are the old ones plus `k`.
proof fn lemma_mark_to_set<K>(before: Seq<K>, after: Seq<K>, k: K)
    requires
        after == before.push(k) || (after == before && before.contains(k)),
    ensures
        after.to_set() == before.to_set().insert(k),
{
    super::graph::lemma_push_contains(before, k);
    assert(after.to_set() =~= before.to_set().insert(k));
}

/// Eager propagation policy: immediately marks all transitive dependents.
#[derive(Copy, Clone, Debug, Default)]
pub struct EagerPolicy;

/// Lazy propagation policy: marks only the key itself; dependents are
/// expanded at drain time.
#[derive(Copy, Clone, Debug, Default)]
pub struct LazyPolicy;

impl<K: DenseKey> PropagationPolicy<K> for EagerPolicy {
    open spec fn obeys_propagated_spec(&self) -> bool {
        true
    }

    /// `key` and every key that depends on it, transitively, are marked in
    /// `channel`; other channels are untouched.
    open spec fn propagated(&self, key: K, channel: Channel, graph: DirtyGraph<K>, before: DirtySet<K>, after: DirtySet<K>) -> bool {
        &&& after.keys(channel.idx()).to_set() == before.keys(channel.idx()).to_set().union(affected_by(graph, channel.idx(), key))
        &&& forall|c: nat| c != channel.idx() ==> #[trigger] after.keys(c) == before.keys(c)
    }

    fn propagate(&self, key: K, channel: Channel, graph: &DirtyGraph<K>, dirty: &mut DirtySet<K>)
        ensures
            final(dirty).keys(channel.idx()).to_set() == old(dirty).keys(channel.idx()).to_set().union(affected_by(*graph, channel.idx(), key)),
            forall|c: nat| c != channel.idx() ==> #[trigger] final(dirty).keys(c) == old(dirty).keys(c),
    {
        let ghost c = channel.idx();
        let ghost before = dirty.keys(c);
        let _ = dirty.mark(key, channel);
        let ghost mid = dirty.keys(c);
        proof {
            lemma_mark_to_set(before, mid, key);
        }
        let dependents = graph.transitive_dependents(key, channel);
        mark_keys(dirty, &dependents, channel);
        proof {
            assert(dirty.keys(c).to_set() =~= before.to_set().union(affected_by(*graph, c, key)));
            assert(affected_by(*graph, c, key).contains(key));
            assert(dirty.keys(c).to_set().contains(key));
            assert forall|c2: nat, k: K| #[trigger] old(dirty).keys(c2).contains(k) implies dirty.keys(c2).contains(k) by {
                if c2 == c {
                    assert(old(dirty).keys(c).to_set().contains(k));
                    assert(dirty.keys(c).to_set().contains(k));
                }
            }
        }
    }
}

impl<K: DenseKey> PropagationPolicy<K> for LazyPolicy {
    open spec fn obeys_propagated_spec(&self) -> bool {
        true
    }

    /// Only `key` is marked in `channel`; other channels are untouched.
    open spec fn propagated(&self, key: K, channel: Channel, graph: DirtyGraph<K>, before: DirtySet<K>, after: DirtySet<K>) -> bool {
        &&& after.keys(channel.idx()).to_set() == before.keys(channel.idx()).to_set().insert(key)
        &&& forall|c: nat| c != channel.idx() ==> #[trigger] after.keys(c) == before.keys(c)
    }

    fn propagate(&self, key: K, channel: Channel, graph: &DirtyGraph<K>, dirty: &mut DirtySet<K>)
        ensures
            final(dirty).keys(channel.idx()).to_set() == old(dirty).keys(channel.idx()).to_set().insert(key),
            forall|c: nat| c != channel.idx() ==> #[trigger] final(dirty).keys(c) == old(dirty).keys(c),
    {
        let ghost before = dirty.keys(channel.idx());
        let _ = dirty.mark(key, channel);
        proof {
            let c = channel.idx();
            lemma_mark_to_set(before, dirty.keys(c), key);
            assert(dirty.keys(c).to_set().contains(key));
            assert forall|c2: nat, k: K| #[trigger] old(dirty).keys(c2).contains(k) implies dirty.keys(c2).contains(k) by {
                if c2 == c {
                    assert(old(dirty).keys(c).to_set().contains(k));
                    assert(dirty.keys(c).to_set().contains(k));
                }
            }
        }
    }
}

impl EagerPolicy {
    /// Eager propagation that reuses `scratch` for the traversal.
    pub fn propagate_with_scratch<K: DenseKey>(&self, key: K, channel: Channel, graph: &DirtyGraph<K>, dirty: &mut DirtySet<K>, scratch: &mut TraversalScratch<K>)
        requires
            graph.wf(),
            old(dirty).wf(),
        ensures
            final(dirty).wf(),
            final(dirty).keys(channel.idx()).to_set() == old(dirty).keys(channel.idx()).to_set().union(affected_by(*graph, channel.idx(), key)),
            forall|c: nat| c != channel.idx() ==> #[trigger] final(dirty).keys(c) == old(dirty).keys(c),
    {
        let ghost c = channel.idx();
        let ghost before = dirty.keys(c);
        let _ = dirty.mark(key, channel);
        proof {
            lemma_mark_to_set(before, dirty.keys(c), key);
        }
        let dependents = graph.for_each_transitive_dependent(key, channel, scratch);
        mark_keys(dirty, &dependents, channel);
        proof {
            assert(dirty.keys(c).to_set() =~= before.to_set().union(affected_by(*graph, c, key)));
        }
    }

    /// Eager propagation that also reports to `trace` the root and, for each
    /// newly reached dependent, the dependency it was reached through.
    pub fn propagate_with_trace<K: DenseKey, T: DirtyTrace<K>>(
        &self,
        key: K,
        channel: Channel,
        graph: &DirtyGraph<K>,
        dirty: &mut DirtySet<K>,
        scratch: &mut TraversalScratch<K>,
        trace: &mut T,
    )
        requires
            graph.wf(),
            old(dirty).wf(),
        ensures
            final(dirty).wf(),
            final(dirty).keys(channel.idx()).to_set() == old(dirty).keys(channel.idx()).to_set().union(affected_by(*graph, channel.idx(), key)),
            forall|c: nat| c != channel.idx() ==> #[trigger] final(dirty).keys(c) == old(dirty).keys(c),
            old(trace).obeys_call_log_spec() ==> final(trace).obeys_call_log_spec()
                && old(trace).calls().len() <= final(trace).calls().len()
                && final(trace).calls().take(old(trace).calls().len() as int) == old(trace).calls()
                && traced_walk(
                    final(trace).calls().skip(old(trace).calls().len() as int),
                    *graph,
                    channel,
                    key,
                    old(dirty).keys(channel.idx()),
                ),
    {
        let ghost c = channel.idx();
        let ghost before = dirty.keys(c);
        let newly_dirty = dirty.mark(key, channel);
        proof {
            lemma_mark_to_set(before, dirty.keys(c), key);
        }
        trace.root(key, channel, newly_dirty);
        let ghost mut log: Seq<TraceCall<K>> = seq![TraceCall::Root(key, channel, newly_dirty)];
        scratch.reset();
        scratch.stack.push(key);
        let _ = scratch.visited.insert(key.index());
        let ghost mut seen: Seq<K> = seq![key];
        proof {
            graph.lemma_wf_facts();
            <usize as vstd::set_lib::FiniteFull>::full_properties();
            vstd::set_lib::lemma_len_subset(scratch.visited.contents(), Set::<usize>::full());
            assert(key_indices(seen)[0] == key.spec_index() as int);
            assert forall|i: usize| #[trigger] scratch.visited.contents().contains(i) <==> key_indices(seen).contains(i as int) by {
                if key_indices(seen).contains(i as int) {
                    let m = choose|m: int| 0 <= m < key_indices(seen).len() && key_indices(seen)[m] == i as int;
                }
            }
            assert(dirty.keys(c).to_set() =~= before.to_set().union(seen.to_set()));
            assert(scratch.stack@.contains(key)) by { assert(scratch.stack@[0] == key); }
        }
        let ch = channel.index() as usize;
        while scratch.stack.len() > 0
            invariant
                graph.wf(),
                dirty.wf(),
                c == channel.idx(),
                c < 64,
                Set::<usize>::full().finite(),
                scratch.visited.contents().finite(),
                scratch.visited.contents().len() <= Set::<usize>::full().len(),
                seen.no_duplicates(),
                seen.len() > 0,
                seen[0] == key,
                forall|i: usize| #[trigger] scratch.visited.contents().contains(i) <==> key_indices(seen).contains(i as int),
                forall|k: K| #[trigger] seen.contains(k) ==> (k == key || graph.depends_transitively(c, k, key)),
                scratch.stack@.no_duplicates(),
                forall|k: K| #[trigger] scratch.stack@.contains(k) ==> seen.contains(k),
                forall|k: K, d: K| seen.contains(k) && !scratch.stack@.contains(k) && #[trigger] graph.rdeps(k, c).contains(d)
                    ==> seen.contains(d),
                dirty.keys(c).to_set() == before.to_set().union(seen.to_set()),
                forall|c2: nat| c2 != c ==> #[trigger] dirty.keys(c2) == old(dirty).keys(c2),
                log.len() == seen.len(),
                forall|i: int| 0 <= i < log.len() ==> call_key(#[trigger] log[i]) == seen[i],
                log[0] == TraceCall::Root(key, channel, !before.contains(key)),
                forall|i: int| 0 < i < log.len() ==> #[trigger] traced_step(log, i, *graph, channel, before),
                old(trace).obeys_call_log_spec() ==> trace.obeys_call_log_spec() && trace.calls() == old(trace).calls() + log,
            decreases Set::<usize>::full().len() - scratch.visited.contents().len(), scratch.stack@.len(),
        {
            let ghost old_stack = scratch.stack@;
            let current = scratch.stack.pop().unwrap();
            proof {
                assert(old_stack == scratch.stack@.push(current));
                assert(old_stack.contains(current)) by { assert(old_stack[old_stack.len() - 1] == current); }
                assert(!scratch.stack@.contains(current)) by {
                    if scratch.stack@.contains(current) {
                        let j = choose|j: int| 0 <= j < scratch.stack@.len() && scratch.stack@[j] == current;
                        assert(old_stack[j] == old_stack[old_stack.len() - 1]);
                    }
                }
                assert forall|k: K| #[trigger] scratch.stack@.contains(k) implies old_stack.contains(k) by {
                    if scratch.stack@.contains(k) {
                        let j = choose|j: int| 0 <= j < scratch.stack@.len() && scratch.stack@[j] == k;
                        assert(old_stack[j] == k);
                    }
                }
            }
            let dependents = graph.dependents(current, channel);
            let ghost base_stack = scratch.stack@;
            let ghost base_seen = seen;
            let ghost base_visited_len = scratch.visited.contents().len();
            let mut j: usize = 0;
            while j < dependents.len()
                invariant
                    graph.wf(),
                    dirty.wf(),
                    c == channel.idx(),
                    c < 64,
                    Set::<usize>::full().finite(),
                    scratch.visited.contents().finite(),
                    scratch.visited.contents().len() <= Set::<usize>::full().len(),
                    dependents@ == graph.rdeps(current, c),
                    j <= dependents@.len(),
                    scratch.stack@.len() + base_visited_len == base_stack.len() + scratch.visited.contents().len(),
                    base_visited_len <= scratch.visited.contents().len(),
                    seen.no_duplicates(),
                    seen.len() > 0,
                    seen[0] == key,
                    seen.contains(current),
                    base_seen.len() <= seen.len(),
                    forall|i: int| 0 <= i < base_seen.len() ==> #[trigger] seen[i] == base_seen[i],
                    forall|i: usize| #[trigger] scratch.visited.contents().contains(i) <==> key_indices(seen).contains(i as int),
                    forall|k: K| #[trigger] seen.contains(k) ==> (k == key || graph.depends_transitively(c, k, key)),
                    scratch.stack@.no_duplicates(),
                    !scratch.stack@.contains(current),
                    forall|k: K| #[trigger] scratch.stack@.contains(k) ==> seen.contains(k),
                    forall|k: K| #[trigger] seen.contains(k) && !base_seen.contains(k) ==> scratch.stack@.contains(k),
                    forall|k: K| #[trigger] base_stack.contains(k) ==> scratch.stack@.contains(k),
                    forall|m: int| 0 <= m < j ==> seen.contains(#[trigger] dependents@[m]),
                    forall|k: K, d: K| base_seen.contains(k) && !base_stack.contains(k) && k != current && #[trigger] graph.rdeps(k, c).contains(d)
                        ==> base_seen.contains(d),
                    dirty.keys(c).to_set() == before.to_set().union(seen.to_set()),
                    forall|c2: nat| c2 != c ==> #[trigger] dirty.keys(c2) == old(dirty).keys(c2),
                    log.len() == seen.len(),
                    forall|i: int| 0 <= i < log.len() ==> call_key(#[trigger] log[i]) == seen[i],
                    log[0] == TraceCall::Root(key, channel, !before.contains(key)),
                    forall|i: int| 0 < i < log.len() ==> #[trigger] traced_step(log, i, *graph, channel, before),
                    old(trace).obeys_call_log_spec() ==> trace.obeys_call_log_spec() && trace.calls() == old(trace).calls() + log,
                decreases dependents@.len() - j,
            {
                let dependent = dependents[j];
                let ghost old_seen = seen;
                let ghost old_jstack = scratch.stack@;
                proof {
                    graph.lemma_wf_facts();
                    assert(graph.rdeps(current, c).contains(dependent));
                    assert(graph.deps(dependent, c).contains(current));
                    if current != key {
                        graph.lemma_depends_prepend(c, dependent, current, key);
                    } else {
                        graph.lemma_depends_direct(c, dependent, key);
                    }
                }
                if scratch.visited.insert(dependent.index()) {
                    proof {
                        vstd::set_lib::lemma_len_subset(scratch.visited.contents(), Set::<usize>::full());
                        assert(!seen.contains(dependent)) by {
                            if seen.contains(dependent) {
                                let m = choose|m: int| 0 <= m < seen.len() && seen[m] == dependent;
                                assert(key_indices(seen)[m] == dependent.spec_index() as int);
                            }
                        }
                        lemma_push_fresh(seen, dependent);
                        assert(!scratch.stack@.contains(dependent));
                        lemma_push_fresh(scratch.stack@, dependent);
                    }
                    let ghost before_mark = dirty.keys(c);
                    let newly_dirty = dirty.mark(dependent, channel);
                    proof {
                        assert(before_mark.to_set().contains(dependent) == before.to_set().contains(dependent));
                        assert(newly_dirty == !before.contains(dependent));
                    }
                    trace.caused_by(dependent, current, channel, newly_dirty);
                    scratch.stack.push(dependent);
                    proof {
                        let old_log = log;
                        let step = TraceCall::CausedBy(dependent, current, channel, newly_dirty);
                        log = log.push(step);
                        assert forall|i: int| 0 < i < log.len() implies #[trigger] traced_step(log, i, *graph, channel, before) by {
                            if i < old_log.len() {
                                lemma_traced_step_push(old_log, step, i, *graph, channel, before);
                            } else {
                                let m = choose|m: int| 0 <= m < old_seen.len() && old_seen[m] == current;
                                assert(call_key(log[m]) == current);
                            }
                        }
                        assert forall|i: int| 0 <= i < log.len() implies call_key(#[trigger] log[i]) == old_seen.push(dependent)[i] by {
                            if i < old_log.len() {
                                assert(log[i] == old_log[i]);
                            }
                        }
                        seen = seen.push(dependent);
                        lemma_mark_to_set(before_mark, dirty.keys(c), dependent);
                        super::graph::lemma_push_contains(old_seen, dependent);
                        assert(dirty.keys(c).to_set() =~= before.to_set().union(seen.to_set()));
                        assert forall|i: usize| #[trigger] scratch.visited.contents().contains(i) <==> key_indices(seen).contains(i as int) by {
                            if key_indices(seen).contains(i as int) {
                                let m = choose|m: int| 0 <= m < key_indices(seen).len() && key_indices(seen)[m] == i as int;
                                if m < old_seen.len() {
                                    assert(key_indices(old_seen)[m] == i as int);
                                }
                            }
                            if key_indices(old_seen).contains(i as int) {
                                let m = choose|m: int| 0 <= m < key_indices(old_seen).len() && key_indices(old_seen)[m] == i as int;
                                assert(key_indices(seen)[m] == i as int);
                            }
                            if i == dependent.spec_index() {
                                assert(key_indices(seen)[old_seen.len() as int] == i as int);
                            }
                        }
                        assert(seen[0] == key);
                    }
                } else {
                    proof {
                        assert(key_indices(seen).contains(dependent.spec_index() as int));
                        let m = choose|m: int| 0 <= m < key_indices(seen).len() && key_indices(seen)[m] == dependent.spec_index() as int;
                        K::lemma_index_injective(seen[m], dependent);
                        assert(seen.contains(dependent));
                    }
                }
                j += 1;
            }
            proof {
                assert forall|k: K, d: K| seen.contains(k) && !scratch.stack@.contains(k) && #[trigger] graph.rdeps(k, c).contains(d)
                    implies seen.contains(d) by {
                    if k == current {
                        let m = choose|m: int| 0 <= m < dependents@.len() && dependents@[m] == d;
                        assert(seen.contains(dependents@[m]));
                    } else {
                        assert(base_seen.contains(k));
                        assert(!base_stack.contains(k));
                        assert(base_seen.contains(d));
                        let m = choose|m: int| 0 <= m < base_seen.len() && base_seen[m] == d;
                        assert(seen[m] == d);
                    }
                }
            }
        }
        proof {
            assert forall|k: K| #[trigger] affected_by(*graph, c, key).contains(k) == seen.contains(k) by {
                if graph.depends_transitively(c, k, key) {
                    let s = Set::new(|i: usize| key_indices(seen).contains(i as int));
                    assert forall|d: K| #[trigger] graph.rdeps(key, c).contains(d) implies s.contains(d.spec_index()) by {
                        assert(seen.contains(key)) by { assert(seen[0] == key); }
                        assert(!scratch.stack@.contains(key));
                        assert(seen.contains(d));
                        let m2 = choose|m2: int| 0 <= m2 < seen.len() && seen[m2] == d;
                        assert(key_indices(seen)[m2] == d.spec_index() as int);
                    }
                    assert forall|k2: K, d: K| s.contains(k2.spec_index()) && #[trigger] graph.rdeps(k2, c).contains(d)
                        implies s.contains(d.spec_index()) by {
                        let m = choose|m: int| 0 <= m < key_indices(seen).len() && key_indices(seen)[m] == k2.spec_index() as int;
                        K::lemma_index_injective(seen[m], k2);
                        assert(seen.contains(k2));
                        assert(seen.contains(d));
                        let m2 = choose|m2: int| 0 <= m2 < seen.len() && seen[m2] == d;
                        assert(key_indices(seen)[m2] == d.spec_index() as int);
                    }
                    let p = choose|p: Seq<K>| #[trigger] graph.is_path(c, p) && p.len() >= 2 && p[0] == k && p.last() == key;
                    graph.lemma_chain_in_dependents_closure(c, key, s, p, 0);
                    let m = choose|m: int| 0 <= m < key_indices(seen).len() && key_indices(seen)[m] == k.spec_index() as int;
                    K::lemma_index_injective(seen[m], k);
                }
                if k == key {
                    assert(seen[0] == key);
                }
            }
            assert(seen.to_set() =~= affected_by(*graph, c, key));
            assert(log.map_values(|t: TraceCall<K>| call_key(t)) =~= seen);
            if old(trace).obeys_call_log_spec() {
                let n = old(trace).calls().len() as int;
                assert(trace.calls().take(n) =~= old(trace).calls());
                assert(trace.calls().skip(n) =~= log);
            }
        }
    }
}

} // verus!
