//! Sorted sparse `(PropertyId, value)` slots, searched by binary search.
use vstd::prelude::*;

use super::id::PropertyId;

verus! {

/// The ids of the entries strictly increase, so each id occurs at most once.
pub open spec fn ids_ascending<V>(s: Seq<(PropertyId, V)>) -> bool {
    forall|i: int, j: int| 0 <= i < j < s.len() ==> s[i].0.raw() < s[j].0.raw()
}

/// Some entry carries `id`.
pub open spec fn holds_id<V>(s: Seq<(PropertyId, V)>, id: PropertyId) -> bool {
    exists|i: int| 0 <= i < s.len() && s[i].0 == id
}

/// The entries read as a map from id to value.
pub open spec fn entries_map<V>(s: Seq<(PropertyId, V)>) -> Map<PropertyId, V> {
    Map::new(
        |id: PropertyId| holds_id(s, id),
        |id: PropertyId| s[choose|i: int| 0 <= i < s.len() && s[i].0 == id].1,
    )
}

/// The ids of the entries, in order.
pub open spec fn entry_ids<V>(s: Seq<(PropertyId, V)>) -> Seq<PropertyId> {
    s.map_values(|e: (PropertyId, V)| e.0)
}

/// In ascending entries, the map holds each entry's value under its id.
pub proof fn lemma_map_at<V>(s: Seq<(PropertyId, V)>, i: int)
    requires
        ids_ascending(s),
        0 <= i < s.len(),
    ensures
        entries_map(s).contains_key(s[i].0),
        entries_map(s)[s[i].0] == s[i].1,
{
    let id = s[i].0;
    assert(holds_id(s, id));
    let j = choose|j: int| 0 <= j < s.len() && s[j].0 == id;
    if j < i {
        assert(s[j].0.raw() < s[i].0.raw());
    } else if i < j {
        assert(s[i].0.raw() < s[j].0.raw());
    }
}

/// The map's domain is the set of the entries' ids.
pub proof fn lemma_map_domain<V>(s: Seq<(PropertyId, V)>)
    ensures
        entries_map(s).dom() =~= entry_ids(s).to_set(),
{
    assert forall|id: PropertyId| entries_map(s).dom().contains(id) implies entry_ids(
        s,
    ).to_set().contains(id) by {
        let i = choose|i: int| 0 <= i < s.len() && s[i].0 == id;
        assert(entry_ids(s)[i] == id);
    }
    assert forall|id: PropertyId| entry_ids(s).to_set().contains(id) implies entries_map(
        s,
    ).dom().contains(id) by {
        let i = choose|i: int| 0 <= i < entry_ids(s).len() && entry_ids(s)[i] == id;
        assert(s[i].0 == id);
    }
}

/// Two ascending entry sequences with the same ids at the same places, and the
/// same values except at `idx`, read as maps that differ only at that id.
proof fn lemma_map_update<V>(s: Seq<(PropertyId, V)>, idx: int, v: V)
    requires
        ids_ascending(s),
        0 <= idx < s.len(),
    ensures
        ids_ascending(s.update(idx, (s[idx].0, v))),
        entries_map(s.update(idx, (s[idx].0, v))) == entries_map(s).insert(s[idx].0, v),
{
    let t = s.update(idx, (s[idx].0, v));
    let id = s[idx].0;
    assert forall|k: PropertyId| #[trigger] holds_id(t, k) == holds_id(s, k) by {
        if holds_id(t, k) {
            let i = choose|i: int| 0 <= i < t.len() && t[i].0 == k;
            assert(s[i].0 == k);
        }
        if holds_id(s, k) {
            let i = choose|i: int| 0 <= i < s.len() && s[i].0 == k;
            assert(t[i].0 == k);
        }
    }
    assert forall|k: PropertyId| entries_map(t).contains_key(k) implies entries_map(t)[k]
        == entries_map(s).insert(id, v)[k] by {
        let i = choose|i: int| 0 <= i < t.len() && t[i].0 == k;
        lemma_map_at(t, i);
        if i != idx {
            lemma_map_at(s, i);
        }
    }
    lemma_map_at(t, idx);
    assert(entries_map(t) =~= entries_map(s).insert(id, v));
}

/// Inserting an entry at its sorted place keeps the entries ascending and
/// adds it to the map.
proof fn lemma_map_insert<V>(s: Seq<(PropertyId, V)>, idx: int, id: PropertyId, v: V)
    requires
        ids_ascending(s),
        0 <= idx <= s.len(),
        forall|j: int| 0 <= j < idx ==> s[j].0.raw() < id.raw(),
        forall|j: int| idx <= j < s.len() ==> id.raw() < s[j].0.raw(),
    ensures
        ids_ascending(s.insert(idx, (id, v))),
        entries_map(s.insert(idx, (id, v))) == entries_map(s).insert(id, v),
{
    let t = s.insert(idx, (id, v));
    assert forall|i: int, j: int| 0 <= i < j < t.len() implies t[i].0.raw() < t[j].0.raw() by {
        if j < idx {
        } else if j == idx {
        } else if i < idx {
            assert(t[j] == s[j - 1]);
        } else if i == idx {
            assert(t[j] == s[j - 1]);
        } else {
            assert(t[i] == s[i - 1]);
            assert(t[j] == s[j - 1]);
        }
    }
    assert forall|k: PropertyId| #[trigger] holds_id(t, k) == (k == id || holds_id(s, k)) by {
        if holds_id(t, k) {
            let i = choose|i: int| 0 <= i < t.len() && t[i].0 == k;
            if i < idx {
                assert(s[i].0 == k);
            } else if i > idx {
                assert(s[i - 1].0 == k);
            }
        }
        if holds_id(s, k) {
            let i = choose|i: int| 0 <= i < s.len() && s[i].0 == k;
            if i < idx {
                assert(t[i].0 == k);
            } else {
                assert(t[i + 1].0 == k);
            }
        }
        if k == id {
            assert(t[idx].0 == k);
        }
    }
    assert forall|k: PropertyId| entries_map(t).contains_key(k) implies entries_map(t)[k]
        == entries_map(s).insert(id, v)[k] by {
        let i = choose|i: int| 0 <= i < t.len() && t[i].0 == k;
        lemma_map_at(t, i);
        if i < idx {
            lemma_map_at(s, i);
        } else if i > idx {
            assert(t[i] == s[i - 1]);
            lemma_map_at(s, i - 1);
        }
    }
    lemma_map_at(t, idx);
    assert(entries_map(t) =~= entries_map(s).insert(id, v));
}

/// Removing the entry at `idx` keeps the entries ascending and drops its id
/// from the map.
proof fn lemma_map_remove<V>(s: Seq<(PropertyId, V)>, idx: int)
    requires
        ids_ascending(s),
        0 <= idx < s.len(),
    ensures
        ids_ascending(s.remove(idx)),
        entries_map(s.remove(idx)) == entries_map(s).remove(s[idx].0),
{
    let t = s.remove(idx);
    let id = s[idx].0;
    assert forall|i: int, j: int| 0 <= i < j < t.len() implies t[i].0.raw() < t[j].0.raw() by {
        if j < idx {
        } else if i < idx {
            assert(t[j] == s[j + 1]);
        } else {
            assert(t[i] == s[i + 1]);
            assert(t[j] == s[j + 1]);
        }
    }
    assert forall|k: PropertyId| #[trigger] holds_id(t, k) == (k != id && holds_id(s, k)) by {
        if holds_id(t, k) {
            let i = choose|i: int| 0 <= i < t.len() && t[i].0 == k;
            if i < idx {
                assert(s[i].0 == k);
                assert(s[i].0.raw() < s[idx].0.raw());
            } else {
                assert(s[i + 1].0 == k);
                assert(s[idx].0.raw() < s[i + 1].0.raw());
            }
        }
        if k != id && holds_id(s, k) {
            let i = choose|i: int| 0 <= i < s.len() && s[i].0 == k;
            if i < idx {
                assert(t[i].0 == k);
            } else {
                assert(i != idx);
                assert(t[i - 1].0 == k);
            }
        }
    }
    assert forall|k: PropertyId| entries_map(t).contains_key(k) implies entries_map(t)[k]
        == entries_map(s).remove(id)[k] by {
        let i = choose|i: int| 0 <= i < t.len() && t[i].0 == k;
        lemma_map_at(t, i);
        if i < idx {
            lemma_map_at(s, i);
        } else {
            assert(t[i] == s[i + 1]);
            lemma_map_at(s, i + 1);
        }
    }
    assert(entries_map(t) =~= entries_map(s).remove(id));
}

/// Binary search for `id`: `Ok` with its place when present, otherwise `Err`
/// with the place where it would be inserted to keep the ids ascending.
pub fn entry_find<V>(entries: &Vec<(PropertyId, V)>, id: PropertyId) -> (r: Result<usize, usize>)
    requires
        ids_ascending(entries@),
    ensures
        match r {
            Ok(i) => i < entries.len() && entries@[i as int].0 == id,
            Err(i) => {
                &&& i <= entries.len()
                &&& !holds_id(entries@, id)
                &&& forall|j: int| 0 <= j < i ==> entries@[j].0.raw() < id.raw()
                &&& forall|j: int| i <= j < entries.len() ==> id.raw() < entries@[j].0.raw()
            },
        },
{
    let target = id.get();
    let mut lo: usize = 0;
    let mut hi: usize = entries.len();
    while lo < hi
        invariant
            lo <= hi <= entries.len(),
            target == id.raw(),
            ids_ascending(entries@),
            forall|j: int| 0 <= j < lo ==> entries@[j].0.raw() < id.raw(),
            forall|j: int| hi <= j < entries.len() ==> id.raw() < entries@[j].0.raw(),
        decreases hi - lo,
    {
        let mid = lo + (hi - lo) / 2;
        let m = entries[mid].0.get();
        if m == target {
            proof {
                PropertyId::lemma_raw_injective(entries@[mid as int].0, id);
            }
            return Ok(mid);
        } else if m < target {
            lo = mid + 1;
        } else {
            hi = mid;
        }
    }
    proof {
        assert forall|j: int| 0 <= j < entries.len() implies entries@[j].0 != id by {
            if j < lo {
                assert(entries@[j].0.raw() < id.raw());
            } else {
                assert(id.raw() < entries@[j].0.raw());
            }
        }
    }
    Err(lo)
}

/// The value stored under `id`, if any.
pub fn entry_get<V>(entries: &Vec<(PropertyId, V)>, id: PropertyId) -> (r: Option<&V>)
    requires
        ids_ascending(entries@),
    ensures
        match r {
            Some(v) => entries_map(entries@).contains_key(id) && entries_map(entries@)[id] == *v,
            None => !entries_map(entries@).contains_key(id),
        },
{
    match entry_find(entries, id) {
        Ok(idx) => {
            proof {
                lemma_map_at(entries@, idx as int);
            }
            Some(&entries[idx].1)
        },
        Err(_) => None,
    }
}

/// Whether some entry carries `id`.
pub fn entry_has<V>(entries: &Vec<(PropertyId, V)>, id: PropertyId) -> (r: bool)
    requires
        ids_ascending(entries@),
    ensures
        r == entries_map(entries@).contains_key(id),
{
    match entry_find(entries, id) {
        Ok(idx) => {
            proof {
                lemma_map_at(entries@, idx as int);
            }
            true
        },
        Err(_) => false,
    }
}

/// Stores `value` under `id`, replacing an existing entry or inserting a new
/// one at its sorted place.
pub fn entry_write<V>(entries: &mut Vec<(PropertyId, V)>, id: PropertyId, value: V)
    requires
        ids_ascending(old(entries)@),
    ensures
        ids_ascending(final(entries)@),
        entries_map(final(entries)@) == entries_map(old(entries)@).insert(id, value),
{
    match entry_find(entries, id) {
        Ok(idx) => {
            proof {
                lemma_map_update(entries@, idx as int, value);
            }
            entries.set(idx, (id, value));
        },
        Err(idx) => {
            proof {
                lemma_map_insert(entries@, idx as int, id, value);
            }
            entries.insert(idx, (id, value));
        },
    }
}

/// Removes the entry for `id`; returns whether there was one.
pub fn entry_clear<V>(entries: &mut Vec<(PropertyId, V)>, id: PropertyId) -> (r: bool)
    requires
        ids_ascending(old(entries)@),
    ensures
        ids_ascending(final(entries)@),
        r == entries_map(old(entries)@).contains_key(id),
        entries_map(final(entries)@) == entries_map(old(entries)@).remove(id),
{
    match entry_find(entries, id) {
        Ok(idx) => {
            proof {
                lemma_map_at(entries@, idx as int);
                lemma_map_remove(entries@, idx as int);
            }
            entries.remove(idx);
            true
        },
        Err(_) => {
            proof {
                assert(entries_map(entries@).remove(id) =~= entries_map(entries@));
            }
            false
        },
    }
}

/// The ids of the entries, in order.
pub fn collect_entry_ids<V>(entries: &Vec<(PropertyId, V)>) -> (r: Vec<PropertyId>)
    ensures
        r@ == entry_ids(entries@),
{
    let mut out: Vec<PropertyId> = Vec::new();
    let mut i: usize = 0;
    while i < entries.len()
        invariant
            i <= entries.len(),
            out@ == entry_ids(entries@).take(i as int),
        decreases entries.len() - i,
    {
        out.push(entries[i].0);
        proof {
            assert(entry_ids(entries@).take(i as int + 1) =~= entry_ids(entries@).take(
                i as int,
            ).push(entries@[i as int].0));
        }
        i = i + 1;
    }
    proof {
        assert(entry_ids(entries@).take(entries.len() as int) =~= entry_ids(entries@));
    }
    out
}

/// The ids strictly increase.
pub open spec fn ascending_ids(s: Seq<PropertyId>) -> bool {
    forall|i: int, j: int| 0 <= i < j < s.len() ==> s[i].raw() < s[j].raw()
}

/// Ascending entries have ascending ids.
pub proof fn lemma_entry_ids_ascending<V>(s: Seq<(PropertyId, V)>)
    requires
        ids_ascending(s),
    ensures
        ascending_ids(entry_ids(s)),
        entry_ids(s).len() == s.len(),
{
}

/// Merges two ascending id sequences into one ascending sequence holding
/// every id of either, each once.
pub fn merge_ids(a: &Vec<PropertyId>, b: &Vec<PropertyId>) -> (r: Vec<PropertyId>)
    requires
        ascending_ids(a@),
        ascending_ids(b@),
    ensures
        ascending_ids(r@),
        forall|id: PropertyId| r@.contains(id) <==> (a@.contains(id) || b@.contains(id)),
{
    let mut out: Vec<PropertyId> = Vec::new();
    let mut i: usize = 0;
    let mut j: usize = 0;
    while i < a.len() || j < b.len()
        invariant
            i <= a.len(),
            j <= b.len(),
            ascending_ids(a@),
            ascending_ids(b@),
            ascending_ids(out@),
            out@.len() > 0 && i < a.len() ==> out@.last().raw() < a@[i as int].raw(),
            out@.len() > 0 && j < b.len() ==> out@.last().raw() < b@[j as int].raw(),
            forall|id: PropertyId|
                out@.contains(id) <==> (a@.take(i as int).contains(id) || b@.take(
                    j as int,
                ).contains(id)),
        decreases a.len() + b.len() - i - j,
    {
        let ghost old_out = out@;
        let ghost (oi, oj) = (i as int, j as int);
        let take_a = if j == b.len() {
            true
        } else if i == a.len() {
            false
        } else {
            a[i].get() <= b[j].get()
        };
        if take_a {
            let x = a[i];
            let same = j < b.len() && b[j].get() == x.get();
            out.push(x);
            i = i + 1;
            if same {
                proof {
                    PropertyId::lemma_raw_injective(b@[oj], x);
                }
                j = j + 1;
            }
        } else {
            out.push(b[j]);
            j = j + 1;
        }
        proof {
            assert forall|id: PropertyId|
                out@.contains(id) <==> (a@.take(i as int).contains(id) || b@.take(
                    j as int,
                ).contains(id)) by {
                assert(out@ == old_out.push(out@.last()));
                if i as int == oi + 1 {
                    assert(a@.take(i as int) == a@.take(oi).push(a@[oi]));
                }
                if j as int == oj + 1 {
                    assert(b@.take(j as int) == b@.take(oj).push(b@[oj]));
                }
                if out@.contains(id) {
                    let k = choose|k: int| 0 <= k < out@.len() && out@[k] == id;
                    if k < old_out.len() {
                        assert(old_out.contains(id));
                    } else if i as int == oi + 1 {
                        assert(a@.take(i as int)[oi] == id);
                    } else {
                        assert(b@.take(j as int)[oj] == id);
                    }
                }
                if a@.take(i as int).contains(id) {
                    let k = choose|k: int| 0 <= k < i && a@.take(i as int)[k] == id;
                    if k < oi {
                        assert(a@.take(oi)[k] == id);
                        assert(old_out.contains(id));
                        let q = choose|q: int| 0 <= q < old_out.len() && old_out[q] == id;
                        assert(out@[q] == id);
                    } else {
                        assert(out@[out@.len() - 1] == id);
                    }
                }
                if b@.take(j as int).contains(id) {
                    let k = choose|k: int| 0 <= k < j && b@.take(j as int)[k] == id;
                    if k < oj {
                        assert(b@.take(oj)[k] == id);
                        assert(old_out.contains(id));
                        let q = choose|q: int| 0 <= q < old_out.len() && old_out[q] == id;
                        assert(out@[q] == id);
                    } else {
                        assert(out@[out@.len() - 1] == id);
                    }
                }
            }
        }
    }
    proof {
        assert(a@.take(a@.len() as int) == a@);
        assert(b@.take(b@.len() as int) == b@);
    }
    out
}

/// An ascending id sequence has as many ids as its set of ids.
pub proof fn lemma_ascending_len(s: Seq<PropertyId>)
    requires
        ascending_ids(s),
    ensures
        s.to_set().len() == s.len(),
        s.to_set().finite(),
{
    broadcast use vstd::seq_lib::seq_to_set_is_finite;

    assert forall|i: int, j: int| 0 <= i < s.len() && 0 <= j < s.len() && i != j implies s[i]
        != s[j] by {
        if i < j {
            assert(s[i].raw() < s[j].raw());
        } else {
            assert(s[j].raw() < s[i].raw());
        }
    }
    s.unique_seq_to_set();
}

/// Ascending entries read as a finite map with one key per entry.
pub proof fn lemma_map_len<V>(s: Seq<(PropertyId, V)>)
    requires
        ids_ascending(s),
    ensures
        entries_map(s).dom().finite(),
        entries_map(s).dom().len() == s.len(),
{
    lemma_map_domain(s);
    lemma_entry_ids_ascending(s);
    lemma_ascending_len(entry_ids(s));
}

} // verus!
