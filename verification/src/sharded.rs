//! Records that carry their partition, and the engines that trust it: the
//! append engine that stages such records, and the hash merge over them.

use crate::model::{log_of, store_view};
use crate::sorting::sort_by_tag;
use crate::theorems::tagged_batching_changes_nothing;
use std::collections::HashMap;
use vstd::prelude::*;

verus! {

/// One update event whose partition was computed by its producer.
#[derive(Clone, Copy, Debug, PartialEq, Eq, Structural)]
pub struct ShardedPair {
    pub shard_id: u32,
    pub key: u128,
    pub value: u128,
}

/// Every record of `delta` names a partition below `shard_count`.
pub open spec fn well_tagged(delta: Seq<ShardedPair>, shard_count: int) -> bool {
    forall|i: int| 0 <= i < delta.len() ==> (#[trigger] delta[i]).shard_id < shard_count
}

/// The records are in ascending order of the partition they name.
pub open spec fn tag_sorted(delta: Seq<ShardedPair>) -> bool {
    forall|i: int, j: int| 0 <= i <= j < delta.len() ==> delta[i].shard_id <= delta[j].shard_id
}

/// The records of `delta` that name partition `shard`, in the order in which
/// they occur.
pub open spec fn tagged_part(delta: Seq<ShardedPair>, shard: int) -> Seq<ShardedPair>
    decreases delta.len(),
{
    if delta.len() == 0 {
        Seq::empty()
    } else if delta.last().shard_id == shard {
        tagged_part(delta.drop_last(), shard).push(delta.last())
    } else {
        tagged_part(delta.drop_last(), shard)
    }
}

/// The values that `delta` carries for `key` in partition `shard`, in the
/// order in which they occur.
pub open spec fn tagged_values(delta: Seq<ShardedPair>, shard: int, key: u128) -> Seq<u128>
    decreases delta.len(),
{
    if delta.len() == 0 {
        Seq::empty()
    } else if delta.last().shard_id == shard && delta.last().key == key {
        tagged_values(delta.drop_last(), shard, key).push(delta.last().value)
    } else {
        tagged_values(delta.drop_last(), shard, key)
    }
}

/// The store that results from merging `delta` into `store`, each record
/// going to the partition it names: every (partition, key) of the delta is
/// present, and its log is the old log followed by the delta's values for
/// it, in delta order. Nothing else changes.
pub open spec fn tagged_merged(store: Seq<Map<u128, Seq<u128>>>, delta: Seq<ShardedPair>) -> Seq<
    Map<u128, Seq<u128>>,
> {
    Seq::new(
        store.len(),
        |s: int|
            Map::new(
                |k: u128| store[s].contains_key(k) || tagged_values(delta, s, k).len() > 0,
                |k: u128| log_of(store[s], k) + tagged_values(delta, s, k),
            ),
    )
}

/// The store after one record: its value is appended to the log of its key
/// in the partition it names.
pub open spec fn tagged_applied(store: Seq<Map<u128, Seq<u128>>>, pair: ShardedPair) -> Seq<
    Map<u128, Seq<u128>>,
> {
    let s = pair.shard_id as int;
    store.update(s, store[s].insert(pair.key, log_of(store[s], pair.key).push(pair.value)))
}

/// Extending a delta by one record extends the part of the partition it
/// names and of no other.
pub proof fn lemma_tagged_part_push(delta: Seq<ShardedPair>, pair: ShardedPair, shard: int)
    ensures
        tagged_part(delta.push(pair), shard) == if pair.shard_id == shard {
            tagged_part(delta, shard).push(pair)
        } else {
            tagged_part(delta, shard)
        },
{
    assert(delta.push(pair).drop_last() =~= delta);
}

/// Extending a delta by one record extends the values of that record's
/// partition and key, and of no other.
pub proof fn lemma_tagged_values_push(
    delta: Seq<ShardedPair>,
    pair: ShardedPair,
    shard: int,
    key: u128,
)
    ensures
        tagged_values(delta.push(pair), shard, key) == if pair.shard_id == shard && pair.key
            == key {
            tagged_values(delta, shard, key).push(pair.value)
        } else {
            tagged_values(delta, shard, key)
        },
{
    assert(delta.push(pair).drop_last() =~= delta);
}

/// The values of a partition are those that its part of the delta carries.
pub proof fn lemma_tagged_values_of_part(delta: Seq<ShardedPair>, shard: int, key: u128)
    ensures
        tagged_values(tagged_part(delta, shard), shard, key) == tagged_values(delta, shard, key),
    decreases delta.len(),
{
    if delta.len() > 0 {
        lemma_tagged_values_of_part(delta.drop_last(), shard, key);
        lemma_tagged_values_push(tagged_part(delta.drop_last(), shard), delta.last(), shard, key);
    }
}

/// Merging the empty delta changes nothing.
pub proof fn lemma_tagged_merged_empty(store: Seq<Map<u128, Seq<u128>>>)
    ensures
        tagged_merged(store, Seq::<ShardedPair>::empty()) == store,
{
    let out = tagged_merged(store, Seq::<ShardedPair>::empty());
    assert forall|s: int| 0 <= s < store.len() implies #[trigger] out[s] == store[s] by {
        assert forall|k: u128| #[trigger] store[s].contains_key(k) implies out[s][k] == store[s][k] by {
            assert(out[s][k] =~= store[s][k]);
        }
        assert(out[s] =~= store[s]);
    }
    assert(out =~= store);
}

/// Merging a delta record by record gives the merged store.
pub proof fn lemma_tagged_merged_step(
    store: Seq<Map<u128, Seq<u128>>>,
    delta: Seq<ShardedPair>,
    pair: ShardedPair,
)
    requires
        pair.shard_id < store.len(),
    ensures
        tagged_applied(tagged_merged(store, delta), pair) == tagged_merged(store, delta.push(pair)),
{
    let n = store.len() as int;
    let next = tagged_applied(tagged_merged(store, delta), pair);
    let goal = tagged_merged(store, delta.push(pair));
    assert forall|s: int| 0 <= s < n implies #[trigger] next[s] == goal[s] by {
        assert forall|k: u128| #[trigger]
            next[s].contains_key(k) == goal[s].contains_key(k) by {
            lemma_tagged_values_push(delta, pair, s, k);
        }
        assert forall|k: u128| #[trigger] next[s].contains_key(k) implies next[s][k] == goal[s][k] by {
            lemma_tagged_values_push(delta, pair, s, k);
            assert(next[s][k] =~= goal[s][k]);
        }
        assert(next[s] =~= goal[s]);
    }
    assert(next =~= goal);
}

/// The merged store depends on the delta only through the values that it
/// carries for each partition and key.
pub proof fn lemma_tagged_merged_same_values(
    store: Seq<Map<u128, Seq<u128>>>,
    first: Seq<ShardedPair>,
    second: Seq<ShardedPair>,
)
    requires
        forall|s: int, k: u128| tagged_values(first, s, k) == tagged_values(second, s, k),
    ensures
        tagged_merged(store, first) == tagged_merged(store, second),
{
    let a = tagged_merged(store, first);
    let b = tagged_merged(store, second);
    assert forall|s: int| 0 <= s < store.len() implies #[trigger] a[s] == b[s] by {
        assert(a[s] =~= b[s]);
    }
    assert(a =~= b);
}

/// Groups a delta by the partition its records name: the result is in
/// ascending partition order, and every partition keeps its records in the
/// order in which the delta had them.
pub fn group_by_tag(delta: Vec<ShardedPair>) -> (grouped: Vec<ShardedPair>)
    ensures
        grouped@.len() == delta@.len(),
        tag_sorted(grouped@),
        forall|s: int| tagged_part(grouped@, s) == tagged_part(delta@, s),
{
    let mut grouped = delta;
    sort_by_tag(&mut grouped);
    grouped
}

/// Basic append: pushes every record of `delta`, whatever partition it
/// names, onto the end of one flat staging sequence.
pub fn append_basic(staging: &mut Vec<ShardedPair>, delta: &Vec<ShardedPair>)
    ensures
        final(staging)@ == old(staging)@ + delta@,
{
    let mut i: usize = 0;
    proof {
        assert(staging@ =~= old(staging)@ + delta@.take(0));
    }
    while i < delta.len()
        invariant
            i <= delta.len(),
            staging@ == old(staging)@ + delta@.take(i as int),
        decreases delta.len() - i,
    {
        staging.push(delta[i]);
        proof {
            assert(staging@ =~= old(staging)@ + delta@.take(i + 1));
        }
        i += 1;
    }
    proof {
        assert(delta@.take(delta.len() as int) =~= delta@);
    }
}

/// Sharded append: pushes every record of `delta` onto the end of the
/// staging buffer of the partition it names.
pub fn append_sharded(buffers: &mut Vec<Vec<ShardedPair>>, delta: &Vec<ShardedPair>)
    requires
        well_tagged(delta@, old(buffers).len() as int),
    ensures
        final(buffers).len() == old(buffers).len(),
        forall|s: int|
            0 <= s < old(buffers).len() ==> (#[trigger] final(buffers)@[s])@ == old(buffers)@[s]@
                + tagged_part(delta@, s),
{
    let mut i: usize = 0;
    proof {
        assert(delta@.take(0) =~= Seq::<ShardedPair>::empty());
        assert forall|s: int| 0 <= s < buffers.len() implies (#[trigger] buffers@[s])@ == old(
            buffers,
        )@[s]@ + tagged_part(delta@.take(0), s) by {
            assert(buffers@[s]@ + Seq::<ShardedPair>::empty() =~= buffers@[s]@);
        }
    }
    while i < delta.len()
        invariant
            i <= delta.len(),
            buffers.len() == old(buffers).len(),
            well_tagged(delta@, buffers.len() as int),
            forall|s: int|
                0 <= s < buffers.len() ==> (#[trigger] buffers@[s])@ == old(buffers)@[s]@
                    + tagged_part(delta@.take(i as int), s),
        decreases delta.len() - i,
    {
        let pair = delta[i];
        assert(delta@[i as int] == pair);
        let shard_id = pair.shard_id as usize;
        let ghost before = buffers@;
        buffers[shard_id].push(pair);
        proof {
            let prefix = delta@.take(i as int);
            assert(delta@.take(i + 1) =~= prefix.push(pair));
            assert forall|s: int| 0 <= s < buffers.len() implies (#[trigger] buffers@[s])@ == old(
                buffers,
            )@[s]@ + tagged_part(delta@.take(i + 1), s) by {
                lemma_tagged_part_push(prefix, pair, s);
                if s == shard_id {
                    assert(buffers@[s]@ =~= before[s]@.push(pair));
                    assert(buffers@[s]@ =~= old(buffers)@[s]@ + tagged_part(prefix, s).push(pair));
                } else {
                    assert(buffers@[s] == before[s]);
                }
            }
        }
        i += 1;
    }
    proof {
        assert(delta@.take(delta.len() as int) =~= delta@);
    }
}

/// Sort-then-distribute: sorts `delta` by partition (stably), then appends
/// like `append_sharded`. The buffers end up the same.
pub fn append_sharded_sorted(buffers: &mut Vec<Vec<ShardedPair>>, delta: Vec<ShardedPair>)
    requires
        well_tagged(delta@, old(buffers).len() as int),
    ensures
        final(buffers).len() == old(buffers).len(),
        forall|s: int|
            0 <= s < old(buffers).len() ==> (#[trigger] final(buffers)@[s])@ == old(buffers)@[s]@
                + tagged_part(delta@, s),
{
    let ghost given = delta@;
    let grouped = group_by_tag(delta);
    proof {
        lemma_well_tagged_by_parts(given, grouped@, buffers.len() as int);
    }
    append_sharded(buffers, &grouped);
}

/// Whether a delta names only partitions below `shard_count` depends only on
/// its parts: the parts of partitions from `shard_count` on are empty.
pub proof fn lemma_well_tagged_by_parts(
    first: Seq<ShardedPair>,
    second: Seq<ShardedPair>,
    shard_count: int,
)
    requires
        well_tagged(first, shard_count),
        forall|s: int| tagged_part(second, s) == tagged_part(first, s),
    ensures
        well_tagged(second, shard_count),
{
    assert forall|i: int| 0 <= i < second.len() implies (#[trigger] second[i]).shard_id
        < shard_count by {
        let s = second[i].shard_id as int;
        lemma_tagged_part_holds(second, i);
        let t = choose|t: int| 0 <= t < tagged_part(second, s).len() && tagged_part(second, s)[t] == second[i];
        lemma_tagged_part_from(first, s, t);
    }
}

/// Every record of a delta occurs in the part of the partition it names.
pub proof fn lemma_tagged_part_holds(delta: Seq<ShardedPair>, i: int)
    requires
        0 <= i < delta.len(),
    ensures
        exists|t: int|
            0 <= t < tagged_part(delta, delta[i].shard_id as int).len() && tagged_part(
                delta,
                delta[i].shard_id as int,
            )[t] == delta[i],
    decreases delta.len(),
{
    let s = delta[i].shard_id as int;
    if i == delta.len() - 1 {
        let t = tagged_part(delta, s).len() - 1;
        assert(tagged_part(delta, s)[t] == delta[i]);
    } else {
        lemma_tagged_part_holds(delta.drop_last(), i);
        let t = choose|t: int|
            0 <= t < tagged_part(delta.drop_last(), s).len() && tagged_part(delta.drop_last(), s)[t]
                == delta[i];
        assert(tagged_part(delta, s)[t] == delta[i]);
    }
}

/// Every record in the part of a partition is a record of the delta that
/// names that partition.
pub proof fn lemma_tagged_part_from(delta: Seq<ShardedPair>, shard: int, t: int)
    requires
        0 <= t < tagged_part(delta, shard).len(),
    ensures
        tagged_part(delta, shard)[t].shard_id == shard,
        exists|i: int| 0 <= i < delta.len() && delta[i] == tagged_part(delta, shard)[t],
    decreases delta.len(),
{
    if delta.len() > 0 {
        if delta.last().shard_id == shard && t == tagged_part(delta, shard).len() - 1 {
            assert(delta[delta.len() - 1] == tagged_part(delta, shard)[t]);
        } else {
            lemma_tagged_part_from(delta.drop_last(), shard, t);
            let i = choose|i: int|
                0 <= i < delta.drop_last().len() && delta.drop_last()[i] == tagged_part(
                    delta.drop_last(),
                    shard,
                )[t];
            assert(delta[i] == tagged_part(delta, shard)[t]);
        }
    }
}

/// Unbatched hash merge of tagged records: appends every record of `delta`
/// to the log of its key in the partition the record names, creating the log
/// where the key is new. The partition is never recomputed.
pub fn hash_merge_sharded(hash_base: &mut Vec<HashMap<u128, Vec<u128>>>, delta: Vec<ShardedPair>)
    requires
        well_tagged(delta@, old(hash_base).len() as int),
    ensures
        final(hash_base).len() == old(hash_base).len(),
        store_view(final(hash_base)@) == tagged_merged(store_view(old(hash_base)@), delta@),
        delta.len() == 0 ==> *final(hash_base) == *old(hash_base),
{
    broadcast use vstd::std_specs::hash::group_hash_axioms;

    let shard_num = hash_base.len();
    let mut i: usize = 0;
    proof {
        lemma_tagged_merged_empty(store_view(hash_base@));
        assert(delta@.take(0) =~= Seq::<ShardedPair>::empty());
    }
    while i < delta.len()
        invariant
            i <= delta.len(),
            hash_base.len() == shard_num,
            shard_num == old(hash_base).len(),
            well_tagged(delta@, shard_num as int),
            delta.len() == 0 ==> *hash_base == *old(hash_base),
            store_view(hash_base@) == tagged_merged(
                store_view(old(hash_base)@),
                delta@.take(i as int),
            ),
        decreases delta.len() - i,
    {
        let pair = delta[i];
        assert(delta@[i as int] == pair);
        let shard_id = pair.shard_id as usize;
        let ghost before = hash_base@;
        let slot = hash_base[shard_id].entry(pair.key).or_insert(Vec::new());
        slot.push(pair.value);
        proof {
            let prefix = delta@.take(i as int);
            assert(delta@.take(i + 1) =~= prefix.push(pair));
            lemma_tagged_merged_step(store_view(old(hash_base)@), prefix, pair);
            let next = tagged_applied(store_view(before), pair);
            assert forall|s: int| 0 <= s < shard_num implies #[trigger] store_view(hash_base@)[s]
                =~= next[s] by {
                assert(hash_base@[s] == if s == shard_id { hash_base@[shard_id as int] } else { before[s] });
            }
            assert(store_view(hash_base@) =~= next);
        }
        i += 1;
    }
    proof {
        assert(delta@.take(delta.len() as int) =~= delta@);
    }
}

/// Batched hash merge of tagged records: sorts `delta` by partition
/// (stably), then merges like `hash_merge_sharded`. The resulting store is
/// the same.
pub fn hash_merge_sharded_batch(
    hash_base: &mut Vec<HashMap<u128, Vec<u128>>>,
    delta: Vec<ShardedPair>,
)
    requires
        well_tagged(delta@, old(hash_base).len() as int),
    ensures
        final(hash_base).len() == old(hash_base).len(),
        store_view(final(hash_base)@) == tagged_merged(store_view(old(hash_base)@), delta@),
        delta.len() == 0 ==> *final(hash_base) == *old(hash_base),
{
    let ghost given = delta@;
    let grouped = group_by_tag(delta);
    proof {
        lemma_well_tagged_by_parts(given, grouped@, hash_base.len() as int);
        tagged_batching_changes_nothing(store_view(hash_base@), given, grouped@);
    }
    hash_merge_sharded(hash_base, grouped);
}

} // verus!
