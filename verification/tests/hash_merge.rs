use shard_merge::hash_engine::{gen_hash_base, group_by_shard, hash_merge, hash_merge_batch};
use shard_merge::model::{shard_of, KVPair};
use shard_merge::sharded::{
    append_basic, append_sharded, append_sharded_sorted, group_by_tag, hash_merge_sharded,
    hash_merge_sharded_batch, ShardedPair,
};
use std::collections::HashMap;

fn kv(key: u128, value: u128) -> KVPair {
    KVPair { key, value }
}

fn sp(shard_id: u32, key: u128, value: u128) -> ShardedPair {
    ShardedPair { shard_id, key, value }
}

fn empty_store(shards: usize) -> Vec<HashMap<u128, Vec<u128>>> {
    let mut store = Vec::new();
    for _ in 0..shards {
        store.push(HashMap::new());
    }
    store
}

#[test]
fn shard_of_is_modulo() {
    assert_eq!(shard_of(0, 1), 0);
    assert_eq!(shard_of(7, 4), 3);
    assert_eq!(shard_of(8, 4), 0);
    assert_eq!(shard_of(u128::MAX, 2), 1);
    assert_eq!(shard_of(u128::MAX, usize::MAX), 0);
}

#[test]
fn default_pair_is_zero() {
    assert_eq!(KVPair::default(), kv(0, 0));
}

#[test]
fn gen_hash_base_places_each_key_by_modulo() {
    let store = gen_hash_base(7, 3);
    assert_eq!(store.len(), 3);
    assert_eq!(store[0].len(), 3);
    assert_eq!(store[1].len(), 2);
    assert_eq!(store[2].len(), 2);
    for key in 0..7u128 {
        let shard = (key % 3) as usize;
        assert_eq!(store[shard].get(&key), Some(&vec![1u128]));
    }
    assert!(store[0].get(&7).is_none());
}

#[test]
fn gen_hash_base_with_no_keys_has_empty_partitions() {
    let store = gen_hash_base(0, 4);
    assert_eq!(store.len(), 4);
    assert!(store.iter().all(|shard| shard.is_empty()));
}

#[test]
fn hash_merge_appends_in_delta_order() {
    let mut store = gen_hash_base(4, 2);
    hash_merge(&mut store, vec![kv(3, 30), kv(1, 10), kv(3, 31), kv(9, 90), kv(1, 11)]);
    assert_eq!(store[1].get(&3), Some(&vec![1, 30, 31]));
    assert_eq!(store[1].get(&1), Some(&vec![1, 10, 11]));
    assert_eq!(store[1].get(&9), Some(&vec![90]));
    assert_eq!(store[0].get(&0), Some(&vec![1]));
    assert_eq!(store[0].get(&2), Some(&vec![1]));
    assert_eq!(store[0].len(), 2);
    assert_eq!(store[1].len(), 3);
}

#[test]
fn hash_merge_keeps_every_record_once() {
    let delta = vec![kv(5, 7), kv(5, 7), kv(2, 7), kv(5, 8)];
    let mut store = empty_store(3);
    hash_merge(&mut store, delta);
    assert_eq!(store[2].get(&5), Some(&vec![7, 7, 8]));
    assert_eq!(store[2].get(&2), Some(&vec![7]));
    let total: usize = store.iter().flat_map(|shard| shard.values()).map(|log| log.len()).sum();
    assert_eq!(total, 4);
}

#[test]
fn hash_merge_batch_gives_the_same_store() {
    let delta = vec![kv(3, 30), kv(0, 5), kv(1, 10), kv(3, 31), kv(4, 40), kv(1, 11), kv(0, 6)];
    let mut plain = gen_hash_base(3, 3);
    let mut batched = gen_hash_base(3, 3);
    hash_merge(&mut plain, delta.clone());
    hash_merge_batch(&mut batched, delta);
    assert_eq!(plain, batched);
    assert_eq!(batched[0].get(&3), Some(&vec![30, 31]));
    assert_eq!(batched[0].get(&0), Some(&vec![1, 5, 6]));
    assert_eq!(batched[1].get(&1), Some(&vec![1, 10, 11]));
    assert_eq!(batched[1].get(&4), Some(&vec![40]));
}

#[test]
fn empty_delta_leaves_the_store_unchanged() {
    let mut store = gen_hash_base(5, 2);
    let before = store.clone();
    hash_merge(&mut store, Vec::new());
    assert_eq!(store, before);
    hash_merge_batch(&mut store, Vec::new());
    assert_eq!(store, before);
    hash_merge_sharded(&mut store, Vec::new());
    assert_eq!(store, before);
    hash_merge_sharded_batch(&mut store, Vec::new());
    assert_eq!(store, before);
}

#[test]
fn empty_delta_into_a_store_without_partitions() {
    let mut store = empty_store(0);
    hash_merge(&mut store, Vec::new());
    hash_merge_batch(&mut store, Vec::new());
    assert!(store.is_empty());
}

#[test]
fn group_by_shard_is_a_stable_grouping() {
    let delta = vec![kv(5, 1), kv(2, 2), kv(4, 3), kv(3, 4), kv(0, 5), kv(1, 6)];
    let grouped = group_by_shard(delta, 3);
    assert_eq!(grouped, vec![kv(3, 4), kv(0, 5), kv(4, 3), kv(1, 6), kv(5, 1), kv(2, 2)]);
}

#[test]
fn group_by_tag_is_a_stable_grouping() {
    let delta = vec![sp(2, 9, 1), sp(0, 9, 2), sp(1, 7, 3), sp(0, 8, 4), sp(2, 1, 5)];
    let grouped = group_by_tag(delta);
    assert_eq!(
        grouped,
        vec![sp(0, 9, 2), sp(0, 8, 4), sp(1, 7, 3), sp(2, 9, 1), sp(2, 1, 5)]
    );
}

#[test]
fn tagged_merge_of_two_partitions() {
    let delta = vec![sp(0, 4, 1), sp(1, 5, 2)];
    let mut plain = empty_store(2);
    let mut batched = empty_store(2);
    hash_merge_sharded(&mut plain, delta.clone());
    hash_merge_sharded_batch(&mut batched, delta);
    for store in [&plain, &batched] {
        assert_eq!(store[0].len(), 1);
        assert_eq!(store[0].get(&4), Some(&vec![1]));
        assert_eq!(store[1].len(), 1);
        assert_eq!(store[1].get(&5), Some(&vec![2]));
    }
}

#[test]
fn modulo_merge_of_two_partitions() {
    let delta = vec![kv(4, 1), kv(5, 2)];
    let mut plain = empty_store(2);
    let mut batched = empty_store(2);
    hash_merge(&mut plain, delta.clone());
    hash_merge_batch(&mut batched, delta);
    for store in [&plain, &batched] {
        assert_eq!(store[0].len(), 1);
        assert_eq!(store[0].get(&4), Some(&vec![1]));
        assert_eq!(store[1].len(), 1);
        assert_eq!(store[1].get(&5), Some(&vec![2]));
    }
}

#[test]
fn tagged_merge_trusts_the_tag() {
    let mut store = empty_store(3);
    hash_merge_sharded(&mut store, vec![sp(2, 3, 10), sp(0, 3, 11), sp(2, 3, 12)]);
    assert_eq!(store[2].get(&3), Some(&vec![10, 12]));
    assert_eq!(store[0].get(&3), Some(&vec![11]));
    assert!(store[1].is_empty());
}

#[test]
fn tagged_batch_gives_the_same_store() {
    let delta = vec![sp(2, 3, 10), sp(0, 3, 11), sp(2, 3, 12), sp(1, 6, 1), sp(0, 3, 13), sp(2, 8, 2)];
    let mut plain = empty_store(3);
    let mut batched = empty_store(3);
    hash_merge_sharded(&mut plain, delta.clone());
    hash_merge_sharded_batch(&mut batched, delta);
    assert_eq!(plain, batched);
    assert_eq!(batched[0].get(&3), Some(&vec![11, 13]));
    assert_eq!(batched[2].get(&3), Some(&vec![10, 12]));
}

#[test]
fn append_basic_keeps_everything_in_order() {
    let mut staging = vec![sp(9, 9, 9)];
    append_basic(&mut staging, &vec![sp(1, 2, 3), sp(0, 5, 6)]);
    assert_eq!(staging, vec![sp(9, 9, 9), sp(1, 2, 3), sp(0, 5, 6)]);
    append_basic(&mut staging, &Vec::new());
    assert_eq!(staging.len(), 3);
}

#[test]
fn append_sharded_routes_by_tag() {
    let mut buffers: Vec<Vec<ShardedPair>> = vec![vec![sp(0, 1, 1)], Vec::new(), Vec::new()];
    let delta = vec![sp(2, 7, 1), sp(0, 7, 2), sp(2, 8, 3), sp(0, 9, 4)];
    append_sharded(&mut buffers, &delta);
    assert_eq!(buffers[0], vec![sp(0, 1, 1), sp(0, 7, 2), sp(0, 9, 4)]);
    assert!(buffers[1].is_empty());
    assert_eq!(buffers[2], vec![sp(2, 7, 1), sp(2, 8, 3)]);
}

#[test]
fn sorted_append_gives_the_same_buffers() {
    let delta = vec![sp(2, 7, 1), sp(0, 7, 2), sp(1, 1, 9), sp(2, 8, 3), sp(0, 9, 4)];
    let mut plain: Vec<Vec<ShardedPair>> = vec![Vec::new(), Vec::new(), Vec::new()];
    let mut sorted: Vec<Vec<ShardedPair>> = vec![Vec::new(), Vec::new(), Vec::new()];
    append_sharded(&mut plain, &delta);
    append_sharded_sorted(&mut sorted, delta);
    assert_eq!(plain, sorted);
    assert_eq!(sorted[2], vec![sp(2, 7, 1), sp(2, 8, 3)]);
}
