//! Stable sorting of deltas, done by the standard library.

use crate::model::{key_sorted, shard_of, shard_part, shard_sorted, values_of, KVPair};
use crate::sharded::{tag_sorted, tagged_part, ShardedPair};
use vstd::prelude::*;

verus! {

/// Sorts a delta by key with the standard library's stable `sort_by_key` on
/// slices. Trusted: the result is in ascending key order, and records that
/// share a key keep their relative order, so every key keeps its sequence of
/// values.
#[verifier::external_body]
pub(crate) fn sort_by_key(delta: &mut Vec<KVPair>)
    ensures
        key_sorted(final(delta)@),
        final(delta)@.len() == old(delta)@.len(),
        forall|k: u128| values_of(final(delta)@, k) == values_of(old(delta)@, k),
{
    delta.sort_by_key(|pair| pair.key);
}

/// Sorts a delta by owning partition with the standard library's stable
/// `sort_by_key` on slices. Trusted: the result is in ascending partition
/// order, and records of one partition keep their relative order, so every
/// partition keeps its part of the delta.
#[verifier::external_body]
pub(crate) fn sort_by_shard(delta: &mut Vec<KVPair>, shard_count: usize)
    requires
        shard_count > 0,
    ensures
        shard_sorted(final(delta)@, shard_count as int),
        final(delta)@.len() == old(delta)@.len(),
        forall|s: int|
            shard_part(final(delta)@, shard_count as int, s) == shard_part(
                old(delta)@,
                shard_count as int,
                s,
            ),
{
    delta.sort_by_key(|pair| shard_of(pair.key, shard_count));
}

/// Sorts a delta by the partition its records name, with the standard
/// library's stable `sort_by_key` on slices. Trusted: the result is in
/// ascending partition order, and records that name one partition keep their
/// relative order, so every partition keeps its part of the delta.
#[verifier::external_body]
pub(crate) fn sort_by_tag(delta: &mut Vec<ShardedPair>)
    ensures
        tag_sorted(final(delta)@),
        final(delta)@.len() == old(delta)@.len(),
        forall|s: int| tagged_part(final(delta)@, s) == tagged_part(old(delta)@, s),
{
    delta.sort_by_key(|pair| pair.shard_id);
}

} // verus!
