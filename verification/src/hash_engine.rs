//! The hash merge engine: deltas applied directly to the partitioned store.

use crate::model::{
    applied, initial_store, lemma_initial_store_step, lemma_merged_empty, lemma_merged_step,
    merged, shard_of, shard_part, shard_sorted, store_view, KVPair,
};
use crate::theorems::batching_changes_nothing;
use crate::sorting::sort_by_shard;
use std::collections::HashMap;
use vstd::prelude::*;

verus! {

/// Creates a store of `shard_num` partitions holding the keys below `len`,
/// each in the partition of the modulo policy, each with the log `[1]`.
pub fn gen_hash_base(len: usize, shard_num: usize) -> (hash_base: Vec<HashMap<u128, Vec<u128>>>)
    requires
        shard_num > 0,
    ensures
        hash_base.len() == shard_num,
        store_view(hash_base@) == initial_store(len as nat, shard_num as nat),
{
    broadcast use vstd::std_specs::hash::group_hash_axioms;

    let mut hash_base: Vec<HashMap<u128, Vec<u128>>> = Vec::new();
    let mut s: usize = 0;
    while s < shard_num
        invariant
            s <= shard_num,
            shard_num > 0,
            hash_base.len() == s,
            forall|t: int| 0 <= t < s ==> (#[trigger] hash_base@[t])@ == Map::<u128, Vec<u128>>::empty(),
        decreases shard_num - s,
    {
        hash_base.push(HashMap::with_capacity(len / shard_num));
        s += 1;
    }
    let mut i: usize = 0;
    proof {
        assert(store_view(hash_base@) =~~= initial_store(0, shard_num as nat));
    }
    while i < len
        invariant
            i <= len,
            shard_num > 0,
            hash_base.len() == shard_num,
            store_view(hash_base@) == initial_store(i as nat, shard_num as nat),
        decreases len - i,
    {
        let key = i as u128;
        let shard_id = shard_of(key, shard_num);
        let mut log: Vec<u128> = Vec::with_capacity(16);
        log.push(1);
        let ghost before = hash_base@;
        let ghost first = log;
        hash_base[shard_id].insert(key, log);
        proof {
            lemma_initial_store_step(i as nat, shard_num as nat);
            let cur = store_view(before);
            let next = cur.update(shard_id as int, cur[shard_id as int].insert(key, seq![1u128]));
            assert(first@ =~= seq![1u128]);
            assert forall|t: int| 0 <= t < shard_num implies #[trigger] store_view(hash_base@)[t]
                =~= next[t] by {
                assert(hash_base@[t] == if t == shard_id { hash_base@[shard_id as int] } else { before[t] });
            }
            assert(store_view(hash_base@) =~= next);
        }
        i += 1;
    }
    hash_base
}

/// Appends every record of `delta` to the log of its key, in the partition
/// that the modulo policy assigns to the key, creating the log where the key
/// is new.
pub fn hash_merge(hash_base: &mut Vec<HashMap<u128, Vec<u128>>>, delta: Vec<KVPair>)
    requires
        delta.len() > 0 ==> old(hash_base).len() > 0,
    ensures
        final(hash_base).len() == old(hash_base).len(),
        store_view(final(hash_base)@) == merged(store_view(old(hash_base)@), delta@),
        delta.len() == 0 ==> *final(hash_base) == *old(hash_base),
{
    broadcast use vstd::std_specs::hash::group_hash_axioms;

    let shard_num = hash_base.len();
    let mut i: usize = 0;
    proof {
        lemma_merged_empty(store_view(hash_base@));
        assert(delta@.take(0) =~= Seq::<KVPair>::empty());
    }
    while i < delta.len()
        invariant
            i <= delta.len(),
            hash_base.len() == shard_num,
            shard_num == old(hash_base).len(),
            delta.len() > 0 ==> shard_num > 0,
            delta.len() == 0 ==> *hash_base == *old(hash_base),
            store_view(hash_base@) == merged(store_view(old(hash_base)@), delta@.take(i as int)),
        decreases delta.len() - i,
    {
        let pair = delta[i];
        let shard_id = shard_of(pair.key, shard_num);
        let ghost before = hash_base@;
        let slot = hash_base[shard_id].entry(pair.key).or_insert(Vec::new());
        slot.push(pair.value);
        proof {
            let prefix = delta@.take(i as int);
            assert(delta@.take(i + 1) =~= prefix.push(pair));
            lemma_merged_step(store_view(old(hash_base)@), prefix, pair);
            let cur = store_view(before);
            let next = applied(cur, pair);
            assert forall|s: int| 0 <= s < shard_num implies #[trigger] store_view(hash_base@)[s]
                =~= next[s] by {
                assert(hash_base@[s] == if s == shard_id { hash_base@[shard_id as int] } else { before[s] });
            }
            assert(store_view(hash_base@) =~= next);
        }
        i += 1;
    }
    proof {
        assert(delta@.take(delta.len() as int) =~= delta@);
    }
}

/// Groups a delta by owning partition, for a store of `shard_count`
/// partitions: the result is in ascending partition order, and every
/// partition keeps its records in the order in which the delta had them.
pub fn group_by_shard(delta: Vec<KVPair>, shard_count: usize) -> (grouped: Vec<KVPair>)
    requires
        shard_count > 0,
    ensures
        grouped@.len() == delta@.len(),
        shard_sorted(grouped@, shard_count as int),
        forall|s: int|
            shard_part(grouped@, shard_count as int, s) == shard_part(
                delta@,
                shard_count as int,
                s,
            ),
{
    let mut grouped = delta;
    sort_by_shard(&mut grouped, shard_count);
    grouped
}

/// Merges `delta` like `hash_merge`, after a stable sort that groups the
/// records by partition, so that consecutive appends land in one partition.
/// The resulting store is the same.
pub fn hash_merge_batch(hash_base: &mut Vec<HashMap<u128, Vec<u128>>>, delta: Vec<KVPair>)
    requires
        delta.len() > 0 ==> old(hash_base).len() > 0,
    ensures
        final(hash_base).len() == old(hash_base).len(),
        store_view(final(hash_base)@) == merged(store_view(old(hash_base)@), delta@),
        delta.len() == 0 ==> *final(hash_base) == *old(hash_base),
{
    let shard_num = hash_base.len();
    if shard_num == 0 {
        proof {
            assert(delta@ =~= Seq::<KVPair>::empty());
            lemma_merged_empty(store_view(hash_base@));
        }
        return ;
    }
    let ghost given = delta@;
    let grouped = group_by_shard(delta, shard_num);
    proof {
        batching_changes_nothing(store_view(hash_base@), given, grouped@);
    }
    hash_merge(hash_base, grouped);
}

} // verus!
