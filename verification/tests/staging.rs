use shard_merge::buffer::{
    buffered_merge, clear_buffers, fold_buffers, gen_vec_delta_buf, hash_merge_vec_delta,
    stage_delta,
};
use shard_merge::hash_engine::{gen_hash_base, hash_merge};
use shard_merge::model::KVPair;
use shard_merge::source::{gen_delta, ordered_delta};

fn kv(key: u128, value: u128) -> KVPair {
    KVPair { key, value }
}

#[test]
fn gen_vec_delta_buf_makes_empty_buffers() {
    let buf = gen_vec_delta_buf(10, 3);
    assert_eq!(buf.len(), 3);
    assert!(buf.iter().all(|b| b.is_empty()));
    let none = gen_vec_delta_buf(0, 1);
    assert_eq!(none.len(), 1);
}

#[test]
fn staging_routes_by_modulo() {
    let mut buf = gen_vec_delta_buf(6, 3);
    stage_delta(&mut buf, &vec![kv(5, 1), kv(3, 2), kv(2, 3), kv(0, 4)], 3);
    assert_eq!(buf[0], vec![kv(3, 2), kv(0, 4)]);
    assert!(buf[1].is_empty());
    assert_eq!(buf[2], vec![kv(5, 1), kv(2, 3)]);
}

#[test]
fn folding_appends_in_buffer_order() {
    let mut store = gen_hash_base(2, 2);
    let buffers = vec![vec![kv(0, 5), kv(7, 6), kv(0, 8)], Vec::new()];
    fold_buffers(&mut store, &buffers);
    assert_eq!(store[0].get(&0), Some(&vec![1, 5, 8]));
    assert_eq!(store[0].get(&7), Some(&vec![6]));
    assert_eq!(store[1].get(&1), Some(&vec![1]));
    assert_eq!(store[1].len(), 1);
}

#[test]
fn stage_then_fold_equals_hash_merge() {
    let delta = vec![kv(3, 30), kv(0, 5), kv(1, 10), kv(3, 31), kv(7, 40), kv(1, 11)];
    let mut direct = gen_hash_base(4, 3);
    hash_merge(&mut direct, delta.clone());

    let mut staged = gen_hash_base(4, 3);
    let mut buf = gen_vec_delta_buf(4, 3);
    let before = staged.clone();
    hash_merge_vec_delta(&mut staged, &mut buf, &delta, false);
    assert_eq!(staged, before);
    assert_eq!(buf[0], vec![kv(3, 30), kv(0, 5), kv(3, 31)]);
    assert_eq!(buf[1], vec![kv(1, 10), kv(7, 40), kv(1, 11)]);
    let held = buf.clone();
    hash_merge_vec_delta(&mut staged, &mut buf, &delta, true);
    assert_eq!(buf, held);
    assert_eq!(staged, direct);
    assert_eq!(staged[0].get(&3), Some(&vec![1, 30, 31]));
}

#[test]
fn clearing_empties_every_buffer() {
    let mut buf = vec![vec![kv(1, 1)], Vec::new(), vec![kv(2, 2), kv(3, 3)]];
    clear_buffers(&mut buf);
    assert_eq!(buf.len(), 3);
    assert!(buf.iter().all(|b| b.is_empty()));
}

#[test]
fn ordered_delta_counts_up() {
    assert_eq!(ordered_delta(3), vec![kv(0, 2), kv(1, 2), kv(2, 2)]);
    assert!(ordered_delta(0).is_empty());
}

#[test]
fn gen_delta_is_a_permutation_of_the_ordered_delta() {
    let delta = gen_delta(64);
    assert_eq!(delta.len(), 64);
    let mut keys: Vec<u128> = delta.iter().map(|pair| pair.key).collect();
    keys.sort();
    assert_eq!(keys, (0..64u128).collect::<Vec<u128>>());
    assert!(delta.iter().all(|pair| pair.value == 2));
}

#[test]
fn gen_delta_shuffles() {
    assert_ne!(gen_delta(64), ordered_delta(64));
}

#[test]
fn buffered_merge_equals_hash_merge_and_drains() {
    let delta = vec![kv(3, 30), kv(0, 5), kv(1, 10), kv(3, 31), kv(7, 40), kv(1, 11)];
    let mut direct = gen_hash_base(4, 3);
    let mut cycled = gen_hash_base(4, 3);
    let mut buf = gen_vec_delta_buf(4, 3);
    for _ in 0..2 {
        hash_merge(&mut direct, delta.clone());
        buffered_merge(&mut cycled, &mut buf, &delta);
        assert_eq!(buf.len(), 3);
        assert!(buf.iter().all(|b| b.is_empty()));
    }
    assert_eq!(cycled, direct);
    assert_eq!(cycled[1].get(&1), Some(&vec![1, 10, 11, 10, 11]));
}

#[test]
fn buffered_merge_folds_what_was_staged_before() {
    let mut store = gen_hash_base(0, 2);
    let mut buf = vec![vec![kv(4, 1)], vec![kv(4, 2)]];
    buffered_merge(&mut store, &mut buf, &vec![kv(4, 3), kv(5, 4)]);
    assert_eq!(store[0].get(&4), Some(&vec![1, 3]));
    assert_eq!(store[1].get(&4), Some(&vec![2]));
    assert_eq!(store[1].get(&5), Some(&vec![4]));
}

#[test]
fn folding_ignores_empty_buffers_beyond_the_store() {
    let mut store = gen_hash_base(1, 1);
    let mut buf = vec![vec![kv(0, 9)], Vec::new(), Vec::new()];
    hash_merge_vec_delta(&mut store, &mut buf, &Vec::new(), true);
    assert_eq!(store[0].get(&0), Some(&vec![1, 9]));
    assert_eq!(buf[0], vec![kv(0, 9)]);
}

#[test]
fn staging_an_empty_delta_needs_no_partitions() {
    let mut store = gen_hash_base(0, 1);
    store.clear();
    let mut buf: Vec<Vec<KVPair>> = Vec::new();
    hash_merge_vec_delta(&mut store, &mut buf, &Vec::new(), false);
    assert!(store.is_empty());
    assert!(buf.is_empty());
}

#[test]
fn merging_a_generated_delta_appends_two_to_every_key() {
    let mut store = gen_hash_base(10, 3);
    hash_merge(&mut store, gen_delta(12));
    for key in 0..12u128 {
        let expected: Vec<u128> = if key < 10 { vec![1, 2] } else { vec![2] };
        assert_eq!(store[(key % 3) as usize].get(&key), Some(&expected));
    }
}
