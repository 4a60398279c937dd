//! The sorted vector merge engine: a two-pointer merge-join of a key-sorted
//! delta into a key-sorted base sequence.

use crate::model::{key_sorted, lemma_values_of_push, lemma_values_of_take, values_of, KVPair};
use crate::sorting::sort_by_key;
use vstd::prelude::*;

verus! {

/// The entries are in strictly ascending order of key, so no key occurs twice.
pub open spec fn strictly_ascending(base: Seq<(u128, Vec<u128>)>) -> bool {
    forall|i: int, j: int| 0 <= i < j < base.len() ==> base[i].0 < base[j].0
}

/// Some entry of the base sequence has the key `key`.
pub open spec fn base_has_key(base: Seq<(u128, Vec<u128>)>, key: u128) -> bool {
    exists|i: int| 0 <= i < base.len() && base[i].0 == key
}

/// The outcome of the merge-join of `delta` into the base sequence `before`:
/// the keys of the base stay; the log of each entry is the old log followed
/// by the delta's values for its key, in delta order; the miss list is in
/// ascending key order and carries, for each key that the base lacks, the
/// delta's values for it in delta order, and nothing for a key of the base.
pub open spec fn joined(
    before: Seq<(u128, Vec<u128>)>,
    delta: Seq<KVPair>,
    after: Seq<(u128, Vec<u128>)>,
    misses: Seq<KVPair>,
) -> bool {
    &&& after.len() == before.len()
    &&& forall|p: int|
        0 <= p < before.len() ==> (#[trigger] after[p]).0 == before[p].0 && after[p].1@
            == before[p].1@ + values_of(delta, before[p].0)
    &&& key_sorted(misses)
    &&& forall|k: u128|
        #[trigger] values_of(misses, k) == if base_has_key(before, k) {
            Seq::<u128>::empty()
        } else {
            values_of(delta, k)
        }
}

/// Merges `delta` into the sorted base sequence. The delta is sorted by key
/// (stably), then joined against the base in one forward pass: a record whose
/// key the base holds is appended to that entry's log; any other record goes
/// to the returned miss list, which is in ascending key order.
pub fn vec_merge(base: &mut Vec<(u128, Vec<u128>)>, delta: Vec<KVPair>) -> (misses: Vec<KVPair>)
    requires
        strictly_ascending(old(base)@),
    ensures
        strictly_ascending(final(base)@),
        joined(old(base)@, delta@, final(base)@, misses@),
        delta.len() == 0 ==> *final(base) == *old(base),
{
    let mut sorted = delta;
    sort_by_key(&mut sorted);
    let ghost sd = sorted@;
    let ghost start = old(base)@;
    let n = base.len();
    let m = sorted.len();
    let mut misses: Vec<KVPair> = Vec::new();
    let mut i: usize = 0;
    let mut j: usize = 0;
    proof {
        assert(sd.take(0) =~= Seq::<KVPair>::empty());
        assert forall|p: int| 0 <= p < n implies (#[trigger] base@[p]).1@ == start[p].1@
            + values_of(sd.take(0), start[p].0) by {
            assert(start[p].1@ + Seq::<u128>::empty() =~= start[p].1@);
        }
    }
    while i < n && j < m
        invariant
            i <= n,
            j <= m,
            base.len() == n,
            start.len() == n,
            sorted@ == sd,
            sd.len() == m,
            m == 0 ==> *base == *old(base),
            key_sorted(sd),
            strictly_ascending(start),
            forall|p: int| 0 <= p < n ==> (#[trigger] base@[p]).0 == start[p].0,
            forall|p: int|
                0 <= p < i ==> (#[trigger] base@[p]).1@ == start[p].1@ + values_of(sd, start[p].0),
            i < n ==> base@[i as int].1@ == start[i as int].1@ + values_of(
                sd.take(j as int),
                start[i as int].0,
            ),
            forall|p: int| i < p < n ==> (#[trigger] base@[p]).1@ == start[p].1@,
            forall|p: int, q: int| 0 <= p < i && j <= q < m ==> (#[trigger] start[p]).0 < (#[trigger] sd[q]).key,
            forall|q: int| 0 <= q < j && i < n ==> (#[trigger] sd[q]).key <= start[i as int].0,
            key_sorted(misses@),
            forall|t: int| 0 <= t < misses.len() && j < m ==> (#[trigger] misses@[t]).key <= sd[j as int].key,
            forall|k: u128|
                #[trigger] values_of(misses@, k) == if base_has_key(start, k) {
                    Seq::<u128>::empty()
                } else {
                    values_of(sd.take(j as int), k)
                },
        decreases (n - i) + (m - j),
    {
        let pair = sorted[j];
        let base_key = base[i].0;
        let ghost prefix = sd.take(j as int);
        proof {
            assert(sd.take(j + 1) =~= prefix.push(pair));
        }
        if pair.key == base_key {
            base[i].1.push(pair.value);
            proof {
                lemma_values_of_push(prefix, pair, base_key);
                assert(base@[i as int].1@ =~= start[i as int].1@ + values_of(sd.take(j + 1), base_key));
                assert(base_has_key(start, base_key));
                assert forall|k: u128| #[trigger]
                    values_of(misses@, k) == if base_has_key(start, k) {
                        Seq::<u128>::empty()
                    } else {
                        values_of(sd.take(j + 1), k)
                    } by {
                    lemma_values_of_push(prefix, pair, k);
                }
            }
            j += 1;
        } else if pair.key < base_key {
            let ghost found = misses@;
            misses.push(pair);
            proof {
                assert(!base_has_key(start, pair.key)) by {
                    if base_has_key(start, pair.key) {
                        let p = choose|p: int| 0 <= p < n && start[p].0 == pair.key;
                        assert(sd[j as int] == pair);
                        if p < i {
                            assert(start[p].0 < sd[j as int].key);
                        } else if p > i {
                            assert(start[i as int].0 < start[p].0);
                        }
                    }
                }
                lemma_values_of_push(prefix, pair, base_key);
                assert forall|k: u128| #[trigger]
                    values_of(misses@, k) == if base_has_key(start, k) {
                        Seq::<u128>::empty()
                    } else {
                        values_of(sd.take(j + 1), k)
                    } by {
                    lemma_values_of_push(prefix, pair, k);
                    lemma_values_of_push(found, pair, k);
                }
            }
            j += 1;
        } else {
            proof {
                lemma_values_of_take(sd, j as int, base_key);
                if i + 1 < n {
                    let next_key = start[i + 1].0;
                    assert(start[i as int].0 < start[i + 1].0);
                    assert forall|q: int| 0 <= q < prefix.len() implies prefix[q].key != next_key by {
                        assert(sd[q].key <= start[i as int].0);
                    }
                    lemma_values_of_take(prefix, 0, next_key);
                    assert(prefix.take(0) =~= Seq::<KVPair>::empty());
                    assert(start[i + 1].1@ + Seq::<u128>::empty() =~= start[i + 1].1@);
                    assert forall|q: int| 0 <= q < j implies (#[trigger] sd[q]).key <= start[i + 1].0 by {
                        assert(sd[q].key <= start[i as int].0);
                    }
                }
                assert forall|p: int, q: int| 0 <= p < i + 1 && j <= q < m implies (#[trigger] start[p]).0 < (#[trigger] sd[q]).key by {
                    if p == i {
                        assert(sd[j as int].key <= sd[q].key);
                    }
                }
            }
            i += 1;
        }
    }
    while j < m
        invariant
            j <= m,
            i <= n,
            j < m ==> i == n,
            start.len() == n,
            sorted@ == sd,
            sd.len() == m,
            key_sorted(sd),
            forall|p: int, q: int| 0 <= p < i && j <= q < m ==> (#[trigger] start[p]).0 < (#[trigger] sd[q]).key,
            key_sorted(misses@),
            forall|t: int| 0 <= t < misses.len() && j < m ==> (#[trigger] misses@[t]).key <= sd[j as int].key,
            forall|k: u128|
                #[trigger] values_of(misses@, k) == if base_has_key(start, k) {
                    Seq::<u128>::empty()
                } else {
                    values_of(sd.take(j as int), k)
                },
        decreases m - j,
    {
        let pair = sorted[j];
        let ghost prefix = sd.take(j as int);
        let ghost found = misses@;
        misses.push(pair);
        proof {
            assert(sd.take(j + 1) =~= prefix.push(pair));
            assert(!base_has_key(start, pair.key)) by {
                if base_has_key(start, pair.key) {
                    let p = choose|p: int| 0 <= p < n && start[p].0 == pair.key;
                    assert(start[p].0 < sd[j as int].key);
                }
            }
            assert forall|k: u128| #[trigger]
                values_of(misses@, k) == if base_has_key(start, k) {
                    Seq::<u128>::empty()
                } else {
                    values_of(sd.take(j + 1), k)
                } by {
                lemma_values_of_push(prefix, pair, k);
                lemma_values_of_push(found, pair, k);
            }
        }
        j += 1;
    }
    proof {
        assert(sd.take(m as int) =~= sd);
        assert forall|p: int| 0 <= p < n implies (#[trigger] base@[p]).1@ == start[p].1@ + values_of(
            delta@,
            start[p].0,
        ) by {
            if p > i {
                assert(start[i as int].0 < start[p].0);
                assert forall|q: int| 0 <= q < m implies sd[q].key != start[p].0 by {
                    assert(sd[q].key <= start[i as int].0);
                }
                lemma_values_of_take(sd, 0, start[p].0);
                assert(sd.take(0) =~= Seq::<KVPair>::empty());
                assert(start[p].1@ + Seq::<u128>::empty() =~= start[p].1@);
            }
        }
    }
    misses
}

} // verus!
