use shard_merge::model::KVPair;
use shard_merge::sorted_engine::vec_merge;

fn kv(key: u128, value: u128) -> KVPair {
    KVPair { key, value }
}

#[test]
fn join_appends_matches_and_lists_misses() {
    let mut base = vec![(1u128, vec![10u128]), (3u128, vec![30u128])];
    let misses = vec_merge(&mut base, vec![kv(1, 5), kv(2, 7), kv(3, 9)]);
    assert_eq!(base, vec![(1, vec![10, 5]), (3, vec![30, 9])]);
    assert_eq!(misses, vec![kv(2, 7)]);
}

#[test]
fn join_sorts_the_delta_first() {
    let mut base = vec![(2u128, vec![]), (4u128, vec![1u128]), (6u128, vec![])];
    let delta = vec![kv(9, 1), kv(4, 2), kv(0, 3), kv(4, 4), kv(5, 5), kv(9, 6), kv(2, 7)];
    let misses = vec_merge(&mut base, delta);
    assert_eq!(base, vec![(2, vec![7]), (4, vec![1, 2, 4]), (6, vec![])]);
    assert_eq!(misses, vec![kv(0, 3), kv(5, 5), kv(9, 1), kv(9, 6)]);
}

#[test]
fn join_of_an_empty_delta_changes_nothing() {
    let mut base = vec![(1u128, vec![10u128]), (3u128, vec![30u128])];
    let misses = vec_merge(&mut base, Vec::new());
    assert_eq!(base, vec![(1, vec![10]), (3, vec![30])]);
    assert!(misses.is_empty());
}

#[test]
fn join_into_an_empty_base_misses_everything() {
    let mut base: Vec<(u128, Vec<u128>)> = Vec::new();
    let misses = vec_merge(&mut base, vec![kv(3, 1), kv(1, 2), kv(3, 3)]);
    assert!(base.is_empty());
    assert_eq!(misses, vec![kv(1, 2), kv(3, 1), kv(3, 3)]);
}

#[test]
fn join_places_every_record_exactly_once() {
    let mut base = vec![(10u128, vec![]), (20u128, vec![]), (30u128, vec![])];
    let delta = vec![kv(30, 1), kv(25, 2), kv(10, 3), kv(35, 4), kv(5, 5), kv(20, 6), kv(10, 7)];
    let misses = vec_merge(&mut base, delta.clone());
    let appended: usize = base.iter().map(|entry| entry.1.len()).sum();
    assert_eq!(appended + misses.len(), delta.len());
    for miss in &misses {
        assert!(base.iter().all(|entry| entry.0 != miss.key));
    }
    assert_eq!(base, vec![(10, vec![3, 7]), (20, vec![6]), (30, vec![1])]);
    assert_eq!(misses, vec![kv(5, 5), kv(25, 2), kv(35, 4)]);
}

#[test]
fn join_with_extreme_keys() {
    let mut base = vec![(0u128, vec![]), (u128::MAX, vec![])];
    let misses = vec_merge(&mut base, vec![kv(u128::MAX, 1), kv(0, 2), kv(1, 3)]);
    assert_eq!(base, vec![(0, vec![2]), (u128::MAX, vec![1])]);
    assert_eq!(misses, vec![kv(1, 3)]);
}
