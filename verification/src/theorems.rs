//! What holds of the merge engines as a whole, stated over their models.

use crate::model::{
    folded, lemma_merged_empty, lemma_merged_same_values, lemma_values_of_push,
    lemma_values_of_shard_part, lemma_values_of_take, log_of, merged, shard_index, shard_part,
    values_of, KVPair,
};
use crate::sharded::{
    lemma_tagged_merged_empty, lemma_tagged_merged_same_values, lemma_tagged_values_of_part,
    tagged_merged, tagged_part, tagged_values, ShardedPair,
};
use crate::sorted_engine::{base_has_key, joined};
use vstd::prelude::*;

verus! {

/// The number of records before position `i` that carry the key of record
/// `i`: the place of that record among the values of its key.
pub open spec fn rank(delta: Seq<KVPair>, i: int) -> int {
    values_of(delta.take(i), delta[i].key).len() as int
}

/// Each record has a place of its own among the values of its key: the value
/// at its rank is the record's value, and records of one key at different
/// positions have different ranks.
pub proof fn lemma_values_of_at(delta: Seq<KVPair>, i: int)
    requires
        0 <= i < delta.len(),
    ensures
        0 <= rank(delta, i) < values_of(delta, delta[i].key).len(),
        values_of(delta, delta[i].key)[rank(delta, i)] == delta[i].value,
    decreases delta.len(),
{
    let k = delta[i].key;
    if i == delta.len() - 1 {
        assert(delta.take(i) =~= delta.drop_last());
    } else {
        assert(delta.drop_last().take(i) =~= delta.take(i));
        lemma_values_of_at(delta.drop_last(), i);
    }
}

/// Records of one key at different positions have different ranks.
pub proof fn lemma_rank_grows(delta: Seq<KVPair>, i: int, j: int)
    requires
        0 <= i < j < delta.len(),
        delta[i].key == delta[j].key,
    ensures
        rank(delta, i) < rank(delta, j),
{
    lemma_rank_grows_over(delta, i, j, delta[i].key);
}

/// A record that carries `key` at position `i` adds to the values of `key`:
/// the first `j` records, for `j` beyond `i`, carry more of them than the
/// first `i`.
pub proof fn lemma_rank_grows_over(delta: Seq<KVPair>, i: int, j: int, key: u128)
    requires
        0 <= i < j <= delta.len(),
        delta[i].key == key,
    ensures
        values_of(delta.take(i), key).len() < values_of(delta.take(j), key).len(),
    decreases j - i,
{
    assert(delta.take(j).drop_last() =~= delta.take(j - 1));
    if j > i + 1 {
        lemma_rank_grows_over(delta, i, j - 1, key);
    }
}

/// Completeness of the hash merge: every record of the delta is present in
/// the merged store, in the log of its key in the partition that owns the
/// key, at a place of its own behind the old log: the old length plus the
/// record's rank. The log is exactly as long as the old log and the delta's
/// values for the key together.
pub proof fn hash_merge_is_complete(store: Seq<Map<u128, Seq<u128>>>, delta: Seq<KVPair>, i: int)
    requires
        store.len() > 0,
        0 <= i < delta.len(),
    ensures
        ({
            let key = delta[i].key;
            let s = shard_index(key, store.len() as int);
            let log = merged(store, delta)[s][key];
            let place = log_of(store[s], key).len() + rank(delta, i);
            &&& 0 <= s < store.len()
            &&& merged(store, delta)[s].contains_key(key)
            &&& log.len() == log_of(store[s], key).len() + values_of(delta, key).len()
            &&& 0 <= place < log.len()
            &&& log[place] == delta[i].value
        }),
{
    lemma_values_of_at(delta, i);
}

/// Order preservation of the hash merge: the log of every key in its own
/// partition is the old log followed by the delta's values for that key in
/// delta order, and the key's log in any other partition is the old one.
pub proof fn hash_merge_preserves_order(
    store: Seq<Map<u128, Seq<u128>>>,
    delta: Seq<KVPair>,
    s: int,
    key: u128,
)
    requires
        0 <= s < store.len(),
    ensures
        log_of(merged(store, delta)[s], key) == if shard_index(key, store.len() as int) == s {
            log_of(store[s], key) + values_of(delta, key)
        } else {
            log_of(store[s], key)
        },
{
    let out = log_of(merged(store, delta)[s], key);
    if shard_index(key, store.len() as int) == s {
        assert(out =~= log_of(store[s], key) + values_of(delta, key));
    } else {
        assert(out =~= log_of(store[s], key));
    }
}

/// Batch equivalence: a delta regrouped so that every partition keeps its
/// part, in order, merges to the same store as the delta itself.
pub proof fn batching_changes_nothing(
    store: Seq<Map<u128, Seq<u128>>>,
    delta: Seq<KVPair>,
    grouped: Seq<KVPair>,
)
    requires
        forall|s: int|
            shard_part(grouped, store.len() as int, s) == shard_part(delta, store.len() as int, s),
    ensures
        merged(store, grouped) == merged(store, delta),
{
    assert forall|k: u128| values_of(grouped, k) == values_of(delta, k) by {
        lemma_values_of_shard_part(grouped, store.len() as int, k);
        lemma_values_of_shard_part(delta, store.len() as int, k);
    }
    lemma_merged_same_values(store, grouped, delta);
}

/// Batch equivalence for tagged records: a delta regrouped so that every
/// partition keeps its part, in order, merges to the same store.
pub proof fn tagged_batching_changes_nothing(
    store: Seq<Map<u128, Seq<u128>>>,
    delta: Seq<ShardedPair>,
    grouped: Seq<ShardedPair>,
)
    requires
        forall|s: int| tagged_part(grouped, s) == tagged_part(delta, s),
    ensures
        tagged_merged(store, grouped) == tagged_merged(store, delta),
{
    assert forall|s: int, k: u128| tagged_values(grouped, s, k) == tagged_values(delta, s, k) by {
        lemma_tagged_values_of_part(grouped, s, k);
        lemma_tagged_values_of_part(delta, s, k);
    }
    lemma_tagged_merged_same_values(store, grouped, delta);
}

/// The number of records before position `i` that name the partition and
/// carry the key of record `i`.
pub open spec fn tagged_rank(delta: Seq<ShardedPair>, i: int) -> int {
    tagged_values(delta.take(i), delta[i].shard_id as int, delta[i].key).len() as int
}

/// Each tagged record has a place of its own among the values of its
/// partition and key: the value at its rank is the record's value.
pub proof fn lemma_tagged_values_at(delta: Seq<ShardedPair>, i: int)
    requires
        0 <= i < delta.len(),
    ensures
        0 <= tagged_rank(delta, i) < tagged_values(
            delta,
            delta[i].shard_id as int,
            delta[i].key,
        ).len(),
        tagged_values(delta, delta[i].shard_id as int, delta[i].key)[tagged_rank(delta, i)]
            == delta[i].value,
    decreases delta.len(),
{
    if i == delta.len() - 1 {
        assert(delta.take(i) =~= delta.drop_last());
    } else {
        assert(delta.drop_last().take(i) =~= delta.take(i));
        lemma_tagged_values_at(delta.drop_last(), i);
    }
}

/// Completeness of the hash merge of tagged records: every record of the
/// delta is present in the merged store, in the log of its key in the
/// partition it names, behind the old log at the record's rank.
pub proof fn tagged_merge_is_complete(
    store: Seq<Map<u128, Seq<u128>>>,
    delta: Seq<ShardedPair>,
    i: int,
)
    requires
        0 <= i < delta.len(),
        delta[i].shard_id < store.len(),
    ensures
        ({
            let key = delta[i].key;
            let s = delta[i].shard_id as int;
            let log = tagged_merged(store, delta)[s][key];
            let place = log_of(store[s], key).len() + tagged_rank(delta, i);
            &&& tagged_merged(store, delta)[s].contains_key(key)
            &&& log.len() == log_of(store[s], key).len() + tagged_values(delta, s, key).len()
            &&& 0 <= place < log.len()
            &&& log[place] == delta[i].value
        }),
{
    lemma_tagged_values_at(delta, i);
}

/// A partition's part of a delta carries nothing for a key that another
/// partition owns.
pub proof fn lemma_values_of_other_part(
    delta: Seq<KVPair>,
    shard_count: int,
    shard: int,
    key: u128,
)
    requires
        shard_index(key, shard_count) != shard,
    ensures
        values_of(shard_part(delta, shard_count, shard), key) == Seq::<u128>::empty(),
    decreases delta.len(),
{
    if delta.len() > 0 {
        lemma_values_of_other_part(delta.drop_last(), shard_count, shard, key);
        lemma_values_of_push(
            shard_part(delta.drop_last(), shard_count, shard),
            delta.last(),
            key,
        );
    }
}

/// Stage-then-fold is the hash merge: folding into each partition the part
/// of the delta that staging routes to it gives the merged store.
pub proof fn stage_then_fold_is_hash_merge(store: Seq<Map<u128, Seq<u128>>>, delta: Seq<KVPair>)
    ensures
        Seq::new(
            store.len(),
            |s: int| folded(store[s], shard_part(delta, store.len() as int, s)),
        ) == merged(store, delta),
{
    let n = store.len() as int;
    let staged = Seq::new(store.len(), |s: int| folded(store[s], shard_part(delta, n, s)));
    let direct = merged(store, delta);
    assert forall|s: int| 0 <= s < n implies #[trigger] staged[s] == direct[s] by {
        assert forall|k: u128| #[trigger]
            staged[s].contains_key(k) == direct[s].contains_key(k) by {
            if shard_index(k, n) == s {
                lemma_values_of_shard_part(delta, n, k);
            } else {
                lemma_values_of_other_part(delta, n, s, k);
            }
        }
        assert forall|k: u128| #[trigger] staged[s].contains_key(k) implies staged[s][k]
            == direct[s][k] by {
            if shard_index(k, n) == s {
                lemma_values_of_shard_part(delta, n, k);
            } else {
                lemma_values_of_other_part(delta, n, s, k);
                assert(log_of(store[s], k) + Seq::<u128>::empty() =~= log_of(store[s], k));
            }
        }
        assert(staged[s] =~= direct[s]);
    }
    assert(staged =~= direct);
}

/// No key occurs twice in the delta.
pub open spec fn distinct_keys(delta: Seq<KVPair>) -> bool {
    forall|i: int, j: int| 0 <= i < j < delta.len() ==> delta[i].key != delta[j].key
}

/// A key that only the record at position `i` carries has that record's
/// value as its only value.
pub proof fn lemma_values_of_single(delta: Seq<KVPair>, i: int)
    requires
        0 <= i < delta.len(),
        forall|j: int| 0 <= j < delta.len() && j != i ==> delta[j].key != delta[i].key,
    ensures
        values_of(delta, delta[i].key) == seq![delta[i].value],
    decreases delta.len(),
{
    let key = delta[i].key;
    let rest = delta.drop_last();
    if i == delta.len() - 1 {
        lemma_values_of_take(rest, 0, key);
        assert(rest.take(0) =~= Seq::<KVPair>::empty());
        assert(values_of(delta, key) =~= seq![delta[i].value]);
    } else {
        assert(delta[delta.len() - 1].key != key);
        lemma_values_of_single(rest, i);
    }
}

/// A delta without repeated keys may come in any order: every reordering of
/// it carries the same values for every key, and so merges to the same
/// store.
pub proof fn order_of_distinct_keys_changes_nothing(
    store: Seq<Map<u128, Seq<u128>>>,
    delta: Seq<KVPair>,
    shuffled: Seq<KVPair>,
)
    requires
        distinct_keys(delta),
        shuffled.to_multiset() == delta.to_multiset(),
    ensures
        distinct_keys(shuffled),
        forall|k: u128| values_of(shuffled, k) == values_of(delta, k),
        merged(store, shuffled) == merged(store, delta),
{
    assert(delta.no_duplicates());
    delta.lemma_multiset_has_no_duplicates();
    shuffled.lemma_multiset_has_no_duplicates_conv();
    assert forall|x: KVPair| shuffled.contains(x) == delta.contains(x) by {
        vstd::seq_lib::to_multiset_contains(shuffled, x);
        vstd::seq_lib::to_multiset_contains(delta, x);
    }
    assert forall|i: int, j: int| 0 <= i < j < shuffled.len() implies shuffled[i].key
        != shuffled[j].key by {
        if shuffled[i].key == shuffled[j].key {
            assert(shuffled.contains(shuffled[i]));
            assert(shuffled.contains(shuffled[j]));
            let a = choose|a: int| 0 <= a < delta.len() && delta[a] == shuffled[i];
            let b = choose|b: int| 0 <= b < delta.len() && delta[b] == shuffled[j];
            assert(a == b);
        }
    }
    assert forall|k: u128| values_of(shuffled, k) == values_of(delta, k) by {
        if exists|i: int| 0 <= i < shuffled.len() && shuffled[i].key == k {
            let i = choose|i: int| 0 <= i < shuffled.len() && shuffled[i].key == k;
            assert(shuffled.contains(shuffled[i]));
            let a = choose|a: int| 0 <= a < delta.len() && delta[a] == shuffled[i];
            lemma_values_of_single(shuffled, i);
            lemma_values_of_single(delta, a);
        } else {
            assert forall|a: int| 0 <= a < delta.len() implies delta[a].key != k by {
                if delta[a].key == k {
                    assert(delta.contains(delta[a]));
                    let i = choose|i: int| 0 <= i < shuffled.len() && shuffled[i] == delta[a];
                    assert(shuffled[i].key == k);
                }
            }
            lemma_values_of_take(shuffled, 0, k);
            lemma_values_of_take(delta, 0, k);
            assert(shuffled.take(0) =~= delta.take(0));
        }
    }
    lemma_merged_same_values(store, shuffled, delta);
}

/// Merging the empty delta of tagged records into a store leaves every
/// partition as it was.
pub proof fn empty_tagged_delta_keeps_store(store: Seq<Map<u128, Seq<u128>>>)
    ensures
        tagged_merged(store, Seq::<ShardedPair>::empty()) == store,
{
    lemma_tagged_merged_empty(store);
}

/// Merging the empty delta into a store leaves every partition as it was.
pub proof fn empty_delta_keeps_store(store: Seq<Map<u128, Seq<u128>>>)
    ensures
        merged(store, Seq::<KVPair>::empty()) == store,
{
    lemma_merged_empty(store);
}

/// Joining the empty delta into a base sequence leaves every entry as it
/// was, and misses nothing.
pub proof fn empty_delta_keeps_base(
    before: Seq<(u128, Vec<u128>)>,
    after: Seq<(u128, Vec<u128>)>,
    misses: Seq<KVPair>,
)
    requires
        joined(before, Seq::<KVPair>::empty(), after, misses),
    ensures
        after.len() == before.len(),
        forall|p: int|
            0 <= p < before.len() ==> (#[trigger] after[p]).0 == before[p].0 && after[p].1@
                == before[p].1@,
        misses.len() == 0,
{
    assert forall|p: int| 0 <= p < before.len() implies (#[trigger] after[p]).0 == before[p].0
        && after[p].1@ == before[p].1@ by {
        assert(before[p].1@ + Seq::<u128>::empty() =~= before[p].1@);
    }
    if misses.len() > 0 {
        let k = misses.last().key;
        assert(values_of(misses, k).len() > 0);
    }
}

/// Completeness and disjointness of the merge-join: every record of the
/// delta lands in exactly one place. If the base holds its key, it stands in
/// that entry's log, behind the old log at the record's rank, and the miss
/// list carries nothing for the key. If the base lacks its key, it stands in
/// the miss list, at the record's rank among the misses of that key, and no
/// entry of the base has the key. So a record is a miss exactly when its key
/// is absent from the base.
pub proof fn join_places_each_record_once(
    before: Seq<(u128, Vec<u128>)>,
    delta: Seq<KVPair>,
    after: Seq<(u128, Vec<u128>)>,
    misses: Seq<KVPair>,
    i: int,
)
    requires
        joined(before, delta, after, misses),
        0 <= i < delta.len(),
    ensures
        base_has_key(before, delta[i].key) ==> values_of(misses, delta[i].key).len() == 0
            && forall|p: int|
            0 <= p < before.len() && (#[trigger] before[p]).0 == delta[i].key ==> {
                let place = before[p].1@.len() + rank(delta, i);
                &&& after[p].1@.len() == before[p].1@.len() + values_of(delta, delta[i].key).len()
                &&& 0 <= place < after[p].1@.len()
                &&& after[p].1@[place] == delta[i].value
            },
        !base_has_key(before, delta[i].key) ==> {
            &&& values_of(misses, delta[i].key) == values_of(delta, delta[i].key)
            &&& 0 <= rank(delta, i) < values_of(misses, delta[i].key).len()
            &&& values_of(misses, delta[i].key)[rank(delta, i)] == delta[i].value
        },
        (values_of(misses, delta[i].key).len() > 0) == !base_has_key(before, delta[i].key),
{
    lemma_values_of_at(delta, i);
    let key = delta[i].key;
    assert(values_of(misses, key) == if base_has_key(before, key) {
        Seq::<u128>::empty()
    } else {
        values_of(delta, key)
    });
}

} // verus!
