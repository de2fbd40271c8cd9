use nonblocking_hashmap::map::NonBlockingHashMap;
use nonblocking_hashmap::policy::{next_size, round_up};
use nonblocking_hashmap::slot::{Key, KeyTypes, Value, ValueTypes};
use nonblocking_hashmap::table::{KVs, Probe, CHM, MAX_SIZE, MIN_SIZE, REPROBE_LIMIT};

#[test]
#[allow(non_snake_case)]
fn test_KVs_init() {
    let kvs = KVs::<i64, i64>::new(10);
    for i in 0..kvs.len() {
        assert!(kvs.get_key_nonatomic_at(i).keytype() == KeyTypes::KeyEmpty);
    }
    for i in 0..kvs.len() {
        assert!(kvs.get_value_nonatomic_at(i).valuetype() == ValueTypes::ValueEmpty);
    }
}

#[test]
fn fresh_table() {
    let kvs = KVs::<i64, i64>::new(16);
    assert_eq!(kvs.len(), 16);
    assert_eq!(kvs.hashes.len(), 16);
    assert!(kvs.hashes.iter().all(|h| *h == 0));
    assert_eq!(kvs.chm.size, 0);
    assert_eq!(kvs.chm.slots, 0);
    assert_eq!(kvs.chm.copy_done, 0);
    assert_eq!(kvs.chm.copy_idx, 0);
    assert_eq!(kvs.chm.get_newkvs_nonatomic(), None);
    assert!(!kvs.chm.has_newkvs());
}

#[test]
fn control_block() {
    let chm = CHM::new();
    assert_eq!(chm.get_newkvs_nonatomic(), None);
    assert!(!chm.has_newkvs());
    assert_eq!(chm.size, 0);
}

#[test]
fn reprobe_limit_formula() {
    let kvs = KVs::<i64, i64>::new(64);
    assert_eq!(kvs.reprobe_limit(), (10 + 64) * 4);
    let kvs = KVs::<i64, i64>::new(8);
    assert_eq!(kvs.reprobe_limit(), 72);
}

#[test]
fn table_full_needs_both() {
    let mut kvs = KVs::<i64, i64>::new(8);
    assert!(!kvs.table_full(REPROBE_LIMIT));
    kvs.chm.slots = 8;
    assert!(kvs.table_full(REPROBE_LIMIT));
    assert!(kvs.table_full(REPROBE_LIMIT + 1));
    assert!(!kvs.table_full(REPROBE_LIMIT - 1));
    kvs.chm.slots = 7;
    assert!(!kvs.table_full(REPROBE_LIMIT));
}

/// A table of eight slots in which the key 5 sits, with no value yet, and where it sits.
fn table_with_five() -> (KVs<i64, i64>, usize) {
    let mut map: NonBlockingHashMap<i64, i64> = NonBlockingHashMap::new_with_size(0);
    assert_eq!(map.replace(5, 1), None);
    let mut kvs = map.tables.remove(0);
    let key = Key::new(5i64);
    let (outcome, idx, _) = kvs.find(&key, key.hash());
    assert_eq!(outcome, Probe::Found);
    kvs.chm.slots = 1;
    (kvs, idx)
}

#[test]
fn find_in_fresh_table() {
    let kvs = KVs::<i64, i64>::new(8);
    let key = Key::new(5i64);
    let h = key.hash();
    let (outcome, idx, misses) = kvs.find(&key, h);
    assert_eq!(outcome, Probe::Vacant);
    assert_eq!(idx, (h % 8) as usize);
    assert_eq!(misses, 0);
}

#[test]
fn find_claimed_key() {
    let (kvs, idx) = table_with_five();
    let key = Key::new(5i64);
    assert_eq!(idx, (key.hash() % 32) as usize);
    assert_eq!(kvs.chm.slots, 1);
    assert_eq!(kvs.hashes[idx], key.hash());
    assert!(*kvs.get_key_nonatomic_at(idx) == key);
    assert!(kvs.get_value_nonatomic_at(idx).is_empty());
}

#[test]
fn value_transitions_keep_count() {
    let (mut kvs, idx) = table_with_five();
    assert!(kvs.write_value(idx, &Value::new_empty(), Value::new(1)));
    assert_eq!(kvs.chm.size, 1);
    assert!(!kvs.write_value(idx, &Value::new_empty(), Value::new(2)));
    assert!(*kvs.get_value_nonatomic_at(idx) == Value::new(1));
    assert!(kvs.write_value(idx, &Value::new(1), Value::new(2)));
    assert_eq!(kvs.chm.size, 1);
    assert!(kvs.write_value(idx, &Value::new(2), Value::new_tombstone()));
    assert_eq!(kvs.chm.size, 0);
    assert!(kvs.write_value(idx, &Value::new_tombstone(), Value::new(3)));
    assert_eq!(kvs.chm.size, 1);
    assert!(kvs.freeze_value(idx, &Value::new(3)));
    assert!(*kvs.get_value_nonatomic_at(idx) == Value::new_prime(3));
    assert_eq!(kvs.chm.size, 1);
    assert!(!kvs.freeze_value(idx, &Value::new(3)));
    assert!(kvs.finish_value(idx, &Value::new_prime(3)));
    assert!(kvs.get_value_nonatomic_at(idx).is_tombprime());
    assert!(!kvs.finish_value(idx, &Value::new_prime(3)));
}

#[test]
fn seal_only_empty() {
    let (mut kvs, idx) = table_with_five();
    let other = (idx + 1) % 32;
    assert!(kvs.seal_slot(other));
    assert!(kvs.get_key_nonatomic_at(other).is_tombstone());
    assert!(!kvs.seal_slot(other));
    assert!(!kvs.seal_slot(idx));
    assert!(*kvs.get_key_nonatomic_at(idx) == Key::new(5));
}

#[test]
fn cursor_and_credit() {
    let (mut kvs, idx) = table_with_five();
    assert!(kvs.reserve_chunk(0, 32));
    assert_eq!(kvs.chm.copy_idx, 32);
    assert!(!kvs.reserve_chunk(0, 32));
    assert_eq!(kvs.chm.copy_idx, 32);
    assert!(kvs.freeze_value(idx, &Value::new_empty()));
    assert!(!kvs.add_copy_done(5, 1));
    assert_eq!(kvs.chm.copy_done, 0);
    assert!(kvs.add_copy_done(0, 1));
    assert_eq!(kvs.chm.copy_done, 1);
    assert_eq!(kvs.set_successor(4), 4);
    assert_eq!(kvs.set_successor(9), 4);
    assert!(kvs.chm.has_newkvs());
    kvs.release();
    assert_eq!(kvs.len(), 0);
    assert_eq!(kvs.chm.copy_done, 1);
    assert_eq!(kvs.chm.get_newkvs_nonatomic(), Some(4));
}

#[test]
fn round_up_values() {
    assert_eq!(round_up(0), 8);
    assert_eq!(round_up(1), 8);
    assert_eq!(round_up(8), 8);
    assert_eq!(round_up(9), 16);
    assert_eq!(round_up(10), 16);
    assert_eq!(round_up(16), 16);
    assert_eq!(round_up(17), 32);
    assert_eq!(round_up(1000), 1024);
    assert_eq!(round_up(MAX_SIZE), MAX_SIZE);
    assert_eq!(round_up(MAX_SIZE - 1), MAX_SIZE);
    assert_eq!(MIN_SIZE, 8);
}

#[test]
fn next_size_by_load() {
    // under a quarter full, long after the last resize: the same size
    assert_eq!(next_size(0, 64, 0, 100, 200), 64);
    assert_eq!(next_size(15, 64, 15, 100, 200), 64);
    // a quarter full: doubles
    assert_eq!(next_size(16, 64, 16, 100, 200), 128);
    assert_eq!(next_size(31, 64, 31, 100, 200), 128);
    // half full: quadruples
    assert_eq!(next_size(32, 64, 32, 100, 200), 256);
    assert_eq!(next_size(64, 64, 64, 100, 200), 256);
}

#[test]
fn next_size_by_churn() {
    // a second after the last resize at most, and half of the used slots dead: doubles
    assert_eq!(next_size(0, 64, 0, 100, 100), 128);
    assert_eq!(next_size(0, 64, 0, 100, 101), 128);
    assert_eq!(next_size(0, 64, 0, 100, 102), 64);
    assert_eq!(next_size(5, 64, 10, 100, 101), 128);
    assert_eq!(next_size(5, 64, 9, 100, 101), 64);
    assert_eq!(next_size(5, 64, 10, i64::MAX, 0), 128);
    // a clock that went back counts as recent
    assert_eq!(next_size(5, 64, 10, 100, 50), 128);
}

#[test]
fn next_size_stops_at_the_limit() {
    assert_eq!(next_size(MAX_SIZE, MAX_SIZE, MAX_SIZE, 0, 100), MAX_SIZE);
    assert_eq!(next_size(MAX_SIZE / 2, MAX_SIZE / 2, 0, 0, 100), MAX_SIZE);
    assert_eq!(next_size(MAX_SIZE / 8, MAX_SIZE / 2, 0, 0, 100), MAX_SIZE);
    assert_eq!(next_size(MAX_SIZE / 4, MAX_SIZE / 4, 0, 0, 100), MAX_SIZE);
}
