//! Staging buffers: a delta is first routed into one buffer per partition,
//! and the buffers are later folded into the store.

use crate::model::{
    folded, lemma_folded_empty, lemma_folded_step, lemma_shard_part_push, log_of, merged,
    shard_index, shard_of, shard_part, shard_view, store_view, KVPair,
};
use crate::theorems::stage_then_fold_is_hash_merge;
use std::collections::HashMap;
use vstd::prelude::*;

verus! {

/// Creates `shard_num` empty staging buffers, each with room for its share
/// of `len` records.
pub fn gen_vec_delta_buf(len: usize, shard_num: usize) -> (buf: Vec<Vec<KVPair>>)
    requires
        shard_num > 0,
    ensures
        buf.len() == shard_num,
        forall|s: int| 0 <= s < shard_num ==> (#[trigger] buf@[s])@ == Seq::<KVPair>::empty(),
{
    let per_buf_cap = len / shard_num;
    let mut buf: Vec<Vec<KVPair>> = Vec::with_capacity(shard_num);
    let mut s: usize = 0;
    while s < shard_num
        invariant
            s <= shard_num,
            buf.len() == s,
            forall|t: int| 0 <= t < s ==> (#[trigger] buf@[t])@ == Seq::<KVPair>::empty(),
        decreases shard_num - s,
    {
        buf.push(Vec::with_capacity(per_buf_cap));
        s += 1;
    }
    buf
}

/// Empties every staging buffer; the number of buffers stays.
pub fn clear_buffers(vec_buf: &mut Vec<Vec<KVPair>>)
    ensures
        final(vec_buf).len() == old(vec_buf).len(),
        forall|s: int|
            0 <= s < final(vec_buf).len() ==> (#[trigger] final(vec_buf)@[s])@ == Seq::<
                KVPair,
            >::empty(),
{
    let n = vec_buf.len();
    let mut s: usize = 0;
    while s < n
        invariant
            s <= n,
            vec_buf.len() == n,
            forall|t: int| 0 <= t < s ==> (#[trigger] vec_buf@[t])@ == Seq::<KVPair>::empty(),
        decreases n - s,
    {
        vec_buf[s].clear();
        s += 1;
    }
}

/// Every record of `delta` is owned, under the modulo policy over
/// `shard_count` partitions, by a partition that has one of `buffers` buffers.
pub open spec fn routable(delta: Seq<KVPair>, shard_count: int, buffers: int) -> bool {
    forall|i: int|
        0 <= i < delta.len() ==> shard_count > 0 && shard_index(
            (#[trigger] delta[i]).key,
            shard_count,
        ) < buffers
}

/// Every non-empty buffer has a partition of its index among `shard_count`.
pub open spec fn foldable(buffers: Seq<Vec<KVPair>>, shard_count: int) -> bool {
    forall|s: int| 0 <= s < buffers.len() && (#[trigger] buffers[s]).len() > 0 ==> s < shard_count
}

/// Routes every record of `delta` to the end of the buffer of the partition
/// that the modulo policy (over `shard_num` partitions) gives its key.
pub fn stage_delta(vec_buf: &mut Vec<Vec<KVPair>>, delta: &Vec<KVPair>, shard_num: usize)
    requires
        routable(delta@, shard_num as int, old(vec_buf).len() as int),
    ensures
        final(vec_buf).len() == old(vec_buf).len(),
        forall|s: int|
            0 <= s < old(vec_buf).len() ==> (#[trigger] final(vec_buf)@[s])@ == old(vec_buf)@[s]@
                + shard_part(delta@, shard_num as int, s),
{
    let mut i: usize = 0;
    proof {
        assert(delta@.take(0) =~= Seq::<KVPair>::empty());
        assert forall|s: int| 0 <= s < vec_buf.len() implies (#[trigger] vec_buf@[s])@ == old(
            vec_buf,
        )@[s]@ + shard_part(delta@.take(0), shard_num as int, s) by {
            assert(vec_buf@[s]@ + Seq::<KVPair>::empty() =~= vec_buf@[s]@);
        }
    }
    while i < delta.len()
        invariant
            i <= delta.len(),
            vec_buf.len() == old(vec_buf).len(),
            routable(delta@, shard_num as int, vec_buf.len() as int),
            forall|s: int|
                0 <= s < vec_buf.len() ==> (#[trigger] vec_buf@[s])@ == old(vec_buf)@[s]@
                    + shard_part(delta@.take(i as int), shard_num as int, s),
        decreases delta.len() - i,
    {
        let pair = delta[i];
        assert(delta@[i as int] == pair);
        let shard_id = shard_of(pair.key, shard_num);
        let ghost before = vec_buf@;
        vec_buf[shard_id].push(pair);
        proof {
            let prefix = delta@.take(i as int);
            assert(delta@.take(i + 1) =~= prefix.push(pair));
            assert forall|s: int| 0 <= s < vec_buf.len() implies (#[trigger] vec_buf@[s])@ == old(
                vec_buf,
            )@[s]@ + shard_part(delta@.take(i + 1), shard_num as int, s) by {
                lemma_shard_part_push(prefix, pair, shard_num as int, s);
                if s == shard_id {
                    assert(vec_buf@[s]@ =~= before[s]@.push(pair));
                    assert(vec_buf@[s]@ =~= old(vec_buf)@[s]@ + shard_part(
                        prefix,
                        shard_num as int,
                        s,
                    ).push(pair));
                } else {
                    assert(vec_buf@[s] == before[s]);
                }
            }
        }
        i += 1;
    }
    proof {
        assert(delta@.take(delta.len() as int) =~= delta@);
    }
}

/// Folds every staging buffer into the partition with the same index: each
/// buffered record is appended to the log of its key there, in buffer order.
/// Partitions without a buffer stay as they are.
pub fn fold_buffers(hash_base: &mut Vec<HashMap<u128, Vec<u128>>>, vec_buf: &Vec<Vec<KVPair>>)
    requires
        foldable(vec_buf@, old(hash_base).len() as int),
    ensures
        final(hash_base).len() == old(hash_base).len(),
        forall|s: int|
            0 <= s < old(hash_base).len() ==> shard_view((#[trigger] final(hash_base)@[s])@) == if s
                < vec_buf.len() {
                folded(shard_view(old(hash_base)@[s]@), vec_buf@[s]@)
            } else {
                shard_view(old(hash_base)@[s]@)
            },
{
    broadcast use vstd::std_specs::hash::group_hash_axioms;

    let n = hash_base.len();
    let mut shard_id: usize = 0;
    while shard_id < vec_buf.len()
        invariant
            shard_id <= vec_buf.len(),
            hash_base.len() == n,
            n == old(hash_base).len(),
            foldable(vec_buf@, n as int),
            forall|s: int|
                0 <= s < n ==> shard_view((#[trigger] hash_base@[s])@) == if s < shard_id {
                    folded(shard_view(old(hash_base)@[s]@), vec_buf@[s]@)
                } else {
                    shard_view(old(hash_base)@[s]@)
                },
        decreases vec_buf.len() - shard_id,
    {
        let shard_buf = &vec_buf[shard_id];
        let mut j: usize = 0;
        proof {
            assert(shard_buf@.take(0) =~= Seq::<KVPair>::empty());
            if shard_id < n {
                lemma_folded_empty(shard_view(old(hash_base)@[shard_id as int]@));
            }
        }
        while j < shard_buf.len()
            invariant
                j <= shard_buf.len(),
                shard_id < vec_buf.len(),
                shard_buf == vec_buf@[shard_id as int],
                hash_base.len() == n,
                n == old(hash_base).len(),
                shard_buf.len() > 0 ==> shard_id < n,
                forall|s: int|
                    0 <= s < n && s != shard_id ==> shard_view((#[trigger] hash_base@[s])@) == if s
                        < shard_id {
                        folded(shard_view(old(hash_base)@[s]@), vec_buf@[s]@)
                    } else {
                        shard_view(old(hash_base)@[s]@)
                    },
                shard_id < n ==> shard_view(hash_base@[shard_id as int]@) == folded(
                    shard_view(old(hash_base)@[shard_id as int]@),
                    shard_buf@.take(j as int),
                ),
            decreases shard_buf.len() - j,
        {
            let pair = shard_buf[j];
            let ghost before = hash_base@;
            let slot = hash_base[shard_id].entry(pair.key).or_insert(Vec::new());
            slot.push(pair.value);
            proof {
                let prefix = shard_buf@.take(j as int);
                assert(shard_buf@.take(j + 1) =~= prefix.push(pair));
                lemma_folded_step(shard_view(old(hash_base)@[shard_id as int]@), prefix, pair);
                let cur = shard_view(before[shard_id as int]@);
                assert(shard_view(hash_base@[shard_id as int]@) =~= cur.insert(
                    pair.key,
                    log_of(cur, pair.key).push(pair.value),
                ));
                assert forall|s: int| 0 <= s < n && s != shard_id implies #[trigger] hash_base@[s]
                    == before[s] by {}
            }
            j += 1;
        }
        proof {
            assert(shard_buf@.take(shard_buf.len() as int) =~= shard_buf@);
        }
        shard_id += 1;
    }
}

/// One step of the stage-then-fold cycle. With `merge` unset, stages `delta`
/// into `vec_buf` by the modulo policy over the store's partition count and
/// leaves the store alone; with `merge` set, folds the buffers into the
/// store and leaves the buffers alone.
pub fn hash_merge_vec_delta(
    hash_base: &mut Vec<HashMap<u128, Vec<u128>>>,
    vec_buf: &mut Vec<Vec<KVPair>>,
    delta: &Vec<KVPair>,
    merge: bool,
)
    requires
        !merge ==> routable(delta@, old(hash_base).len() as int, old(vec_buf).len() as int),
        merge ==> foldable(old(vec_buf)@, old(hash_base).len() as int),
    ensures
        final(vec_buf).len() == old(vec_buf).len(),
        final(hash_base).len() == old(hash_base).len(),
        !merge ==> *final(hash_base) == *old(hash_base),
        !merge ==> forall|s: int|
            0 <= s < old(vec_buf).len() ==> (#[trigger] final(vec_buf)@[s])@ == old(vec_buf)@[s]@
                + shard_part(delta@, old(hash_base).len() as int, s),
        merge ==> *final(vec_buf) == *old(vec_buf),
        merge ==> forall|s: int|
            0 <= s < old(hash_base).len() ==> shard_view((#[trigger] final(hash_base)@[s])@) == if s
                < old(vec_buf).len() {
                folded(shard_view(old(hash_base)@[s]@), old(vec_buf)@[s]@)
            } else {
                shard_view(old(hash_base)@[s]@)
            },
{
    if !merge {
        let shard_num = hash_base.len();
        stage_delta(vec_buf, delta, shard_num);
        return ;
    }
    fold_buffers(hash_base, vec_buf);
}

/// Every buffer is empty.
pub open spec fn all_empty(buffers: Seq<Vec<KVPair>>) -> bool {
    forall|s: int| 0 <= s < buffers.len() ==> (#[trigger] buffers[s])@ == Seq::<KVPair>::empty()
}

/// One full stage-then-fold cycle over one buffer per partition: stages
/// `delta`, folds the buffers into the store, and empties them. Each
/// partition receives what its buffer held before, then its part of the
/// delta; starting from empty buffers the store ends up as after a hash
/// merge of `delta`.
pub fn buffered_merge(
    hash_base: &mut Vec<HashMap<u128, Vec<u128>>>,
    vec_buf: &mut Vec<Vec<KVPair>>,
    delta: &Vec<KVPair>,
)
    requires
        old(vec_buf).len() == old(hash_base).len(),
        delta.len() > 0 ==> old(hash_base).len() > 0,
    ensures
        final(hash_base).len() == old(hash_base).len(),
        final(vec_buf).len() == old(vec_buf).len(),
        all_empty(final(vec_buf)@),
        forall|s: int|
            0 <= s < old(hash_base).len() ==> shard_view((#[trigger] final(hash_base)@[s])@)
                == folded(
                shard_view(old(hash_base)@[s]@),
                old(vec_buf)@[s]@ + shard_part(delta@, old(hash_base).len() as int, s),
            ),
        all_empty(old(vec_buf)@) ==> store_view(final(hash_base)@) == merged(
            store_view(old(hash_base)@),
            delta@,
        ),
{
    hash_merge_vec_delta(hash_base, vec_buf, delta, false);
    hash_merge_vec_delta(hash_base, vec_buf, delta, true);
    proof {
        let n = old(hash_base).len() as int;
        if all_empty(old(vec_buf)@) {
            let before = store_view(old(hash_base)@);
            stage_then_fold_is_hash_merge(before, delta@);
            assert forall|s: int| 0 <= s < n implies #[trigger] store_view(hash_base@)[s]
                == merged(before, delta@)[s] by {
                assert(old(vec_buf)@[s]@ + shard_part(delta@, n, s) =~= shard_part(delta@, n, s));
                assert(shard_view(hash_base@[s]@) == folded(before[s], shard_part(delta@, n, s)));
            }
            assert(store_view(hash_base@) =~= merged(before, delta@));
        }
    }
    clear_buffers(vec_buf);
}

} // verus!
