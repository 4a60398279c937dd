//! Records, the sharding policy and the mathematical model of the store.

use std::collections::HashMap;
use vstd::prelude::*;

verus! {

/// One update event: `value` is to be appended to the log of `key`.
#[derive(Clone, Copy, Debug, PartialEq, Eq, Structural)]
pub struct KVPair {
    pub key: u128,
    pub value: u128,
}

impl Default for KVPair {
    fn default() -> (pair: KVPair)
        ensures
            pair == (KVPair { key: 0, value: 0 }),
    {
        KVPair { key: 0, value: 0 }
    }
}

/// The partition that owns `key` in a store of `shard_count` partitions.
pub open spec fn shard_index(key: u128, shard_count: int) -> int
    recommends
        shard_count > 0,
{
    (key as int) % shard_count
}

/// The values that `delta` carries for `key`, in the order in which they occur.
pub open spec fn values_of(delta: Seq<KVPair>, key: u128) -> Seq<u128>
    decreases delta.len(),
{
    if delta.len() == 0 {
        Seq::empty()
    } else if delta.last().key == key {
        values_of(delta.drop_last(), key).push(delta.last().value)
    } else {
        values_of(delta.drop_last(), key)
    }
}

/// The records of `delta` that the modulo policy routes to partition `shard`,
/// in the order in which they occur.
pub open spec fn shard_part(delta: Seq<KVPair>, shard_count: int, shard: int) -> Seq<KVPair>
    decreases delta.len(),
{
    if delta.len() == 0 {
        Seq::empty()
    } else if shard_index(delta.last().key, shard_count) == shard {
        shard_part(delta.drop_last(), shard_count, shard).push(delta.last())
    } else {
        shard_part(delta.drop_last(), shard_count, shard)
    }
}

/// The records are in ascending order of key.
pub open spec fn key_sorted(delta: Seq<KVPair>) -> bool {
    forall|i: int, j: int| 0 <= i <= j < delta.len() ==> delta[i].key <= delta[j].key
}

/// The records are in ascending order of the partition that owns their key.
pub open spec fn shard_sorted(delta: Seq<KVPair>, shard_count: int) -> bool {
    forall|i: int, j: int|
        0 <= i <= j < delta.len() ==> shard_index(delta[i].key, shard_count) <= shard_index(
            delta[j].key,
            shard_count,
        )
}

/// A partition as a map from each key it holds to that key's log.
pub open spec fn shard_view(shard: Map<u128, Vec<u128>>) -> Map<u128, Seq<u128>> {
    Map::new(|k: u128| shard.contains_key(k), |k: u128| shard[k]@)
}

/// A store as the sequence of its partitions.
pub open spec fn store_view(store: Seq<HashMap<u128, Vec<u128>>>) -> Seq<Map<u128, Seq<u128>>> {
    Seq::new(store.len(), |s: int| shard_view(store[s]@))
}

/// The log of `key` in a partition; the empty log where the key is absent.
pub open spec fn log_of(shard: Map<u128, Seq<u128>>, key: u128) -> Seq<u128> {
    if shard.contains_key(key) {
        shard[key]
    } else {
        Seq::empty()
    }
}

/// The store that results from merging `delta` into `store`, each record
/// routed by `shard_index`: every key of the delta is present in its
/// partition, and its log is the old log followed by the delta's values for
/// it, in delta order. Nothing else changes.
pub open spec fn merged(store: Seq<Map<u128, Seq<u128>>>, delta: Seq<KVPair>) -> Seq<
    Map<u128, Seq<u128>>,
> {
    Seq::new(
        store.len(),
        |s: int|
            Map::new(
                |k: u128|
                    store[s].contains_key(k) || (shard_index(k, store.len() as int) == s
                        && values_of(delta, k).len() > 0),
                |k: u128|
                    if shard_index(k, store.len() as int) == s {
                        log_of(store[s], k) + values_of(delta, k)
                    } else {
                        log_of(store[s], k)
                    },
            ),
    )
}

/// A partition after the records of `buffer` were folded into it: every key
/// of the buffer is present, and its log is the old log followed by the
/// buffer's values for it, in buffer order.
pub open spec fn folded(shard: Map<u128, Seq<u128>>, buffer: Seq<KVPair>) -> Map<u128, Seq<u128>> {
    Map::new(
        |k: u128| shard.contains_key(k) || values_of(buffer, k).len() > 0,
        |k: u128| log_of(shard, k) + values_of(buffer, k),
    )
}

/// The freshly populated store: every key below `len` sits in the partition
/// that the modulo policy gives it, with the one-value log `[1]`.
pub open spec fn initial_store(len: nat, shard_count: nat) -> Seq<Map<u128, Seq<u128>>> {
    Seq::new(
        shard_count,
        |s: int|
            Map::new(
                |k: u128| k < len && shard_index(k, shard_count as int) == s,
                |k: u128| seq![1u128],
            ),
    )
}

/// Computes the partition of `key` by the modulo policy.
pub fn shard_of(key: u128, shard_count: usize) -> (shard: usize)
    requires
        shard_count > 0,
    ensures
        shard == shard_index(key, shard_count as int),
        shard < shard_count,
{
    (key % (shard_count as u128)) as usize
}

/// Extending a delta by one record extends the values of that record's key
/// and of no other.
pub proof fn lemma_values_of_push(delta: Seq<KVPair>, pair: KVPair, key: u128)
    ensures
        values_of(delta.push(pair), key) == if pair.key == key {
            values_of(delta, key).push(pair.value)
        } else {
            values_of(delta, key)
        },
{
    assert(delta.push(pair).drop_last() =~= delta);
}

/// Extending a delta by one record extends the part of that record's
/// partition and of no other.
pub proof fn lemma_shard_part_push(delta: Seq<KVPair>, pair: KVPair, shard_count: int, shard: int)
    ensures
        shard_part(delta.push(pair), shard_count, shard) == if shard_index(pair.key, shard_count)
            == shard {
            shard_part(delta, shard_count, shard).push(pair)
        } else {
            shard_part(delta, shard_count, shard)
        },
{
    assert(delta.push(pair).drop_last() =~= delta);
}

/// Records from position `from` on that do not carry `key` add nothing to
/// its values.
pub proof fn lemma_values_of_take(delta: Seq<KVPair>, from: int, key: u128)
    requires
        0 <= from <= delta.len(),
        forall|q: int| from <= q < delta.len() ==> delta[q].key != key,
    ensures
        values_of(delta, key) == values_of(delta.take(from), key),
    decreases delta.len(),
{
    if delta.len() == from {
        assert(delta.take(from) =~= delta);
    } else {
        assert(delta.drop_last().take(from) =~= delta.take(from));
        lemma_values_of_take(delta.drop_last(), from, key);
    }
}

/// The values of a key are those that its own partition's part carries.
pub proof fn lemma_values_of_shard_part(delta: Seq<KVPair>, shard_count: int, key: u128)
    ensures
        values_of(shard_part(delta, shard_count, shard_index(key, shard_count)), key) == values_of(
            delta,
            key,
        ),
    decreases delta.len(),
{
    if delta.len() > 0 {
        let shard = shard_index(key, shard_count);
        lemma_values_of_shard_part(delta.drop_last(), shard_count, key);
        lemma_values_of_push(
            shard_part(delta.drop_last(), shard_count, shard),
            delta.last(),
            key,
        );
    }
}

/// The merged store depends on the delta only through the values that it
/// carries for each key.
pub proof fn lemma_merged_same_values(
    store: Seq<Map<u128, Seq<u128>>>,
    first: Seq<KVPair>,
    second: Seq<KVPair>,
)
    requires
        forall|k: u128| values_of(first, k) == values_of(second, k),
    ensures
        merged(store, first) == merged(store, second),
{
    let a = merged(store, first);
    let b = merged(store, second);
    assert forall|s: int| 0 <= s < store.len() implies #[trigger] a[s] == b[s] by {
        assert(a[s] =~= b[s]);
    }
    assert(a =~= b);
}

/// Folding the empty buffer changes nothing.
pub proof fn lemma_folded_empty(shard: Map<u128, Seq<u128>>)
    ensures
        folded(shard, Seq::<KVPair>::empty()) == shard,
{
    let out = folded(shard, Seq::<KVPair>::empty());
    assert forall|k: u128| #[trigger] shard.contains_key(k) implies out[k] == shard[k] by {
        assert(out[k] =~= shard[k]);
    }
    assert(out =~= shard);
}

/// Folding a buffer record by record: one more record appends its value to
/// the log of its key.
pub proof fn lemma_folded_step(shard: Map<u128, Seq<u128>>, buffer: Seq<KVPair>, pair: KVPair)
    ensures
        folded(shard, buffer.push(pair)) == folded(shard, buffer).insert(
            pair.key,
            log_of(folded(shard, buffer), pair.key).push(pair.value),
        ),
{
    let cur = folded(shard, buffer);
    let next = cur.insert(pair.key, log_of(cur, pair.key).push(pair.value));
    let goal = folded(shard, buffer.push(pair));
    assert forall|k: u128| #[trigger] next.contains_key(k) == goal.contains_key(k) by {
        lemma_values_of_push(buffer, pair, k);
    }
    assert forall|k: u128| #[trigger] next.contains_key(k) implies next[k] == goal[k] by {
        lemma_values_of_push(buffer, pair, k);
        assert(next[k] =~= goal[k]);
    }
    assert(next =~= goal);
}

/// Populating one more key adds that key, with the log `[1]`, to the
/// partition that owns it.
pub proof fn lemma_initial_store_step(len: nat, shard_count: nat)
    requires
        shard_count > 0,
        len <= u128::MAX,
    ensures
        initial_store(len + 1, shard_count) == initial_store(len, shard_count).update(
            shard_index(len as u128, shard_count as int),
            initial_store(len, shard_count)[shard_index(len as u128, shard_count as int)].insert(
                len as u128,
                seq![1u128],
            ),
        ),
{
    let cur = initial_store(len, shard_count);
    let t = shard_index(len as u128, shard_count as int);
    let next = cur.update(t, cur[t].insert(len as u128, seq![1u128]));
    let goal = initial_store(len + 1, shard_count);
    assert(0 <= t < shard_count);
    assert forall|s: int| 0 <= s < shard_count implies #[trigger] next[s] == goal[s] by {
        assert(next[s] =~= goal[s]);
    }
    assert(next =~= goal);
}

/// Merging the empty delta changes nothing.
pub proof fn lemma_merged_empty(store: Seq<Map<u128, Seq<u128>>>)
    ensures
        merged(store, Seq::<KVPair>::empty()) == store,
{
    let out = merged(store, Seq::<KVPair>::empty());
    assert forall|s: int| 0 <= s < store.len() implies #[trigger] out[s] == store[s] by {
        assert forall|k: u128| #[trigger] store[s].contains_key(k) implies out[s][k] == store[s][k] by {
            assert(out[s][k] =~= store[s][k]);
        }
        assert(out[s] =~= store[s]);
    }
    assert(out =~= store);
}

/// The store after one record: the record's value is appended to the log of
/// its key in the key's partition.
pub open spec fn applied(store: Seq<Map<u128, Seq<u128>>>, pair: KVPair) -> Seq<
    Map<u128, Seq<u128>>,
> {
    let s = shard_index(pair.key, store.len() as int);
    store.update(s, store[s].insert(pair.key, log_of(store[s], pair.key).push(pair.value)))
}

/// Merging a delta record by record gives the merged store: applying `pair`
/// to the merge of `delta` is the merge of `delta` extended by `pair`.
pub proof fn lemma_merged_step(store: Seq<Map<u128, Seq<u128>>>, delta: Seq<KVPair>, pair: KVPair)
    requires
        store.len() > 0,
    ensures
        applied(merged(store, delta), pair) == merged(store, delta.push(pair)),
{
    let n = store.len() as int;
    let cur = merged(store, delta);
    let next = applied(cur, pair);
    let goal = merged(store, delta.push(pair));
    let t = shard_index(pair.key, n);
    assert(0 <= t < n);
    assert forall|s: int| 0 <= s < n implies #[trigger] next[s] == goal[s] by {
        assert forall|k: u128| #[trigger]
            next[s].contains_key(k) == goal[s].contains_key(k) by {
            lemma_values_of_push(delta, pair, k);
        }
        assert forall|k: u128| #[trigger] next[s].contains_key(k) implies next[s][k] == goal[s][k] by {
            lemma_values_of_push(delta, pair, k);
            assert(next[s][k] =~= goal[s][k]);
        }
        assert(next[s] =~= goal[s]);
    }
    assert(next =~= goal);
}

} // verus!
