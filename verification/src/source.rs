//! Synthetic deltas: one record per key, in random order.

use crate::model::{lemma_values_of_take, values_of, KVPair};
use crate::theorems::{
    distinct_keys, lemma_values_of_single, order_of_distinct_keys_changes_nothing,
};
use rand::seq::SliceRandom;
use rand::thread_rng;
use vstd::prelude::*;

verus! {

/// The delta with one record for each key below `len`, in ascending key
/// order, each carrying the value 2.
pub open spec fn ascending_delta(len: nat) -> Seq<KVPair> {
    Seq::new(len, |i: int| KVPair { key: i as u128, value: 2 })
}

/// Builds the ascending delta of `len` records.
pub fn ordered_delta(len: usize) -> (delta: Vec<KVPair>)
    ensures
        delta@ == ascending_delta(len as nat),
{
    let mut delta: Vec<KVPair> = Vec::with_capacity(len);
    let mut i: usize = 0;
    while i < len
        invariant
            i <= len,
            delta@ == ascending_delta(i as nat),
        decreases len - i,
    {
        delta.push(KVPair { key: i as u128, value: 2 });
        proof {
            assert(delta@ =~= ascending_delta((i + 1) as nat));
        }
        i += 1;
    }
    delta
}

/// Shuffles a delta in place with `rand`'s `SliceRandom::shuffle`, driven by
/// the thread-local generator of `rand::thread_rng`. Trusted: the shuffle
/// only swaps elements, so the records are the same ones, each as often as
/// before; nothing is claimed about their order.
#[verifier::external_body]
fn shuffle_delta(delta: &mut Vec<KVPair>)
    ensures
        final(delta)@.to_multiset() == old(delta)@.to_multiset(),
{
    delta.shuffle(&mut thread_rng());
}

/// Generates a delta of `len` records: the records of the ascending delta,
/// in an order chosen at random. Whatever the order, no key occurs twice, and
/// the delta carries the one value 2 for each key below `len` and nothing for
/// any other key.
pub fn gen_delta(len: usize) -> (delta: Vec<KVPair>)
    ensures
        delta@.len() == len,
        delta@.to_multiset() == ascending_delta(len as nat).to_multiset(),
        distinct_keys(delta@),
        forall|k: u128|
            #[trigger] values_of(delta@, k) == if k < len {
                seq![2u128]
            } else {
                Seq::<u128>::empty()
            },
{
    let mut delta = ordered_delta(len);
    shuffle_delta(&mut delta);
    proof {
        let ordered = ascending_delta(len as nat);
        vstd::seq_lib::to_multiset_len(delta@);
        vstd::seq_lib::to_multiset_len(ordered);
        order_of_distinct_keys_changes_nothing(Seq::empty(), ordered, delta@);
        assert forall|k: u128| #[trigger]
            values_of(delta@, k) == if k < len {
                seq![2u128]
            } else {
                Seq::<u128>::empty()
            } by {
            if k < len {
                assert(ordered[k as int].key == k);
                lemma_values_of_single(ordered, k as int);
            } else {
                lemma_values_of_take(ordered, 0, k);
                assert(ordered.take(0) =~= Seq::<KVPair>::empty());
            }
        }
    }
    delta
}

} // verus!
