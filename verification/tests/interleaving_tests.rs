use nonblocking_hashmap::map::NonBlockingHashMap;
use nonblocking_hashmap::slot::{Key, MatchingTypes, Value};

/// A map of two tables, the first with the keys 0..20 and a migration under way out of it.
/// Returns the map, its root and the successor of the root.
fn migrating() -> (NonBlockingHashMap<u64, u64>, usize, usize) {
    let mut map: NonBlockingHashMap<u64, u64> = NonBlockingHashMap::new_with_size(1024);
    for k in 0..20u64 {
        map.put(k, 100 + k);
    }
    let root = map.get_table_nonatomic();
    let now = map.last_resize;
    let newer = map.resize_at(root, now + 10);
    (map, root, newer)
}

fn slot_of(map: &NonBlockingHashMap<u64, u64>, table: usize, key: u64) -> Option<usize> {
    let t = map.table(table);
    (0..t.len()).find(|i| *t.get_key_nonatomic_at(*i) == Key::new(key))
}

#[test]
fn a_reader_finishes_what_a_helper_froze() {
    let (mut map, root, newer) = migrating();
    let idx = slot_of(&map, root, 7).unwrap();
    assert!(map.freeze(root, idx, &Value::new(107)));
    assert!(*map.table(root).get_value_nonatomic_at(idx) == Value::new_prime(107));
    assert_eq!(slot_of(&map, newer, 7), None);
    assert_eq!(map.get(7), Some(107));
    assert!(map.table(root).get_value_nonatomic_at(idx).is_tombprime());
    let moved = slot_of(&map, newer, 7).unwrap();
    assert!(*map.table(newer).get_value_nonatomic_at(moved) == Value::new(107));
    assert_eq!(map.table(root).chm.copy_done, 1);
    assert_eq!(map.get(7), Some(107));
}

#[test]
fn a_writer_finishes_what_a_helper_froze() {
    let (mut map, root, newer) = migrating();
    let idx = slot_of(&map, root, 7).unwrap();
    assert!(map.freeze(root, idx, &Value::new(107)));
    assert_eq!(map.put(7, 1), Some(107));
    assert!(map.table(root).get_value_nonatomic_at(idx).is_tombprime());
    let moved = slot_of(&map, newer, 7).unwrap();
    assert!(*map.table(newer).get_value_nonatomic_at(moved) == Value::new(1));
    assert_eq!(map.get(7), Some(1));
}

#[test]
fn a_remover_finishes_what_a_helper_froze() {
    let (mut map, root, newer) = migrating();
    let idx = slot_of(&map, root, 7).unwrap();
    assert!(map.freeze(root, idx, &Value::new(107)));
    assert_eq!(map.remove(7), Some(107));
    assert!(map.table(root).get_value_nonatomic_at(idx).is_tombprime());
    let moved = slot_of(&map, newer, 7).unwrap();
    assert!(*map.table(newer).get_value_nonatomic_at(moved) == Value::new_tombstone());
    assert_eq!(map.get(7), None);
    assert_eq!(map.put_if_absent(7, 5), None);
    assert_eq!(map.get(7), Some(5));
}

#[test]
fn a_forward_is_made_once() {
    let (mut map, root, newer) = migrating();
    let idx = slot_of(&map, root, 7).unwrap();
    assert!(map.freeze(root, idx, &Value::new(107)));
    // one helper forwards the value and stops before it marks the slot
    let found = map.put_if_match_impl(
        newer,
        Key::new(7),
        Value::new(107),
        MatchingTypes::FromCopySlot,
        None,
        false,
    );
    assert!(found.is_empty());
    let moved = slot_of(&map, newer, 7).unwrap();
    assert!(*map.table(newer).get_value_nonatomic_at(moved) == Value::new(107));
    assert!(*map.table(root).get_value_nonatomic_at(idx) == Value::new_prime(107));
    // another helper forwards again: nothing is written twice, and it marks the slot
    assert!(map.copy_slot(idx, root));
    assert!(*map.table(newer).get_value_nonatomic_at(moved) == Value::new(107));
    assert!(map.table(root).get_value_nonatomic_at(idx).is_tombprime());
    // the first helper comes back and finds the slot marked
    assert!(!map.finish(root, idx, &Value::new_prime(107)));
    assert!(!map.copy_slot(idx, root));
    map.copy_check_and_promote(root, 1);
    assert_eq!(map.get(7), Some(107));
}

#[test]
fn a_forward_does_not_bring_back_what_was_written_since() {
    let (mut map, root, newer) = migrating();
    let idx = slot_of(&map, root, 7).unwrap();
    assert_eq!(map.copy_slot_and_check(root, idx, false), newer);
    assert_eq!(map.put(7, 1), Some(107));
    // a late forward of the value that was moved finds the slot written, and writes nothing
    let found = map.put_if_match_impl(
        newer,
        Key::new(7),
        Value::new(107),
        MatchingTypes::FromCopySlot,
        None,
        false,
    );
    assert!(found == Value::new(1));
    assert_eq!(map.get(7), Some(1));
    assert_eq!(map.remove(7), Some(1));
    let found = map.put_if_match_impl(
        newer,
        Key::new(7),
        Value::new(107),
        MatchingTypes::FromCopySlot,
        None,
        false,
    );
    assert!(found == Value::new_tombstone());
    assert_eq!(map.get(7), None);
}

#[test]
fn a_sealed_slot_takes_no_key() {
    let (mut map, root, newer) = migrating();
    let key = 5000u64;
    let home = (Key::new(key).hash() % map.table(root).len() as u64) as usize;
    assert!(map.table(root).get_key_nonatomic_at(home).is_empty());
    assert!(map.seal(root, home));
    assert!(!map.seal(root, home));
    map.copy_check_and_promote(root, 1);
    assert_eq!(map.put(key, 1), None);
    assert!(map.table(root).get_key_nonatomic_at(home).is_tombstone());
    assert!(slot_of(&map, newer, key).is_some());
    assert_eq!(map.get(key), Some(1));
}

#[test]
fn a_key_without_a_value_is_moved_out_empty() {
    let (mut map, root, newer) = migrating();
    assert_eq!(map.replace(900, 1), None);
    let idx = slot_of(&map, root, 900);
    // the key was claimed in the root, or the put went on to the successor at once
    if let Some(idx) = idx {
        assert!(map.table(root).get_value_nonatomic_at(idx).is_tombprime());
    }
    assert_eq!(map.get(900), None);
    assert_eq!(map.put(900, 2), None);
    assert_eq!(map.get(900), Some(2));
    let moved = slot_of(&map, newer, 900).unwrap();
    assert!(*map.table(newer).get_value_nonatomic_at(moved) == Value::new(2));
}

#[test]
fn writes_land_in_the_newest_table() {
    let (mut map, root, newer) = migrating();
    let newest = map.resize_at(newer, map.last_resize);
    assert_eq!(map.put(3, 33), Some(103));
    for t in [root, newer] {
        let idx = slot_of(&map, t, 3).unwrap();
        assert!(map.table(t).get_value_nonatomic_at(idx).is_tombprime());
    }
    let idx = slot_of(&map, newest, 3).unwrap();
    assert!(*map.table(newest).get_value_nonatomic_at(idx) == Value::new(33));
    assert_eq!(map.get(3), Some(33));
    assert_eq!(map.get(4), Some(104));
    let idx = slot_of(&map, root, 4).unwrap();
    assert!(*map.table(root).get_value_nonatomic_at(idx) == Value::new(104));
}

#[test]
fn promotion_takes_the_time() {
    let mut map: NonBlockingHashMap<u64, u64> = NonBlockingHashMap::new_with_size(0);
    map.put(1, 1);
    let root = map.get_table_nonatomic();
    let newer = map.resize_at(root, 0);
    map.last_resize = 0;
    map.help_copy_impl(root, true);
    assert_eq!(map.get_table_nonatomic(), newer);
    assert!(map.last_resize > 1_600_000_000);
    assert_eq!(map.size(), 1);
    assert_eq!(map.get(1), Some(1));
}

#[test]
fn size_counts_live_entries() {
    let mut map: NonBlockingHashMap<u64, u64> = NonBlockingHashMap::new_with_size(16);
    assert_eq!(map.size(), 0);
    for k in 0..10u64 {
        map.put(k, k);
    }
    assert_eq!(map.size(), 10);
    map.put(3, 4);
    assert_eq!(map.size(), 10);
    map.remove(3);
    map.remove(3);
    assert_eq!(map.size(), 9);
    map.replace(50, 1);
    assert_eq!(map.size(), 9);
    map.put_if_absent(3, 1);
    assert_eq!(map.size(), 10);
    assert_eq!(map.len(), 64);
}

#[test]
fn a_reader_touches_only_the_slots_of_its_key() {
    let (mut map, root, _) = migrating();
    map.remove(9);
    let idx = slot_of(&map, root, 7).unwrap();
    assert!(map.freeze(root, idx, &Value::new(107)));
    for key in [7u64, 9, 3, 4000] {
        let before: Vec<Vec<(Key<u64>, Value<u64>)>> = (0..map.tables.len())
            .map(|t| {
                let table = map.table(t);
                (0..table.len())
                    .map(|i| (*table.get_key_nonatomic_at(i), *table.get_value_nonatomic_at(i)))
                    .collect()
            })
            .collect();
        let expected = if key == 7 { Some(107) } else if key == 3 { Some(103) } else { None };
        assert_eq!(map.get(key), expected);
        for t in map.kvs..before.len() {
            let table = map.table(t);
            for i in 0..table.len() {
                let (k1, v1) = before[t][i];
                let k2 = *table.get_key_nonatomic_at(i);
                if k1 != Key::new(key) && k2 != Key::new(key) {
                    assert!(k2 == k1);
                    assert!(*table.get_value_nonatomic_at(i) == v1);
                }
            }
        }
    }
    // the deleted key and the frozen key were moved on by their readers
    let nine = slot_of(&map, root, 9).unwrap();
    assert!(map.table(root).get_value_nonatomic_at(nine).is_tombprime());
    assert!(map.table(root).get_value_nonatomic_at(idx).is_tombprime());
}

#[test]
fn a_reader_of_a_live_value_touches_nothing() {
    let (mut map, root, _) = migrating();
    let three = slot_of(&map, root, 3).unwrap();
    assert!(*map.table(root).get_value_nonatomic_at(three) == Value::new(103));
    assert_eq!(map.get(3), Some(103));
    assert!(*map.table(root).get_value_nonatomic_at(three) == Value::new(103));
    assert_eq!(map.table(root).chm.copy_done, 0);
    assert_eq!(map.table(root).chm.copy_idx, 0);
}

#[test]
fn sealing_leaves_every_other_table_alone() {
    let mut map: NonBlockingHashMap<u64, u64> = NonBlockingHashMap::new_with_size(10);
    let t = map.get_table_nonatomic();
    let newer = map.resize(t);
    assert!(map.copy_slot(0, t));
    assert!(map.table(t).get_key_nonatomic_at(0).is_tombstone());
    assert!(map.table(t).get_value_nonatomic_at(0).is_empty());
    for i in 1..64 {
        assert!(map.table(t).get_key_nonatomic_at(i).is_empty());
        assert!(map.table(t).get_value_nonatomic_at(i).is_empty());
    }
    assert_eq!(map.tables.len(), 2);
    for i in 0..map.table(newer).len() {
        assert!(map.table(newer).get_key_nonatomic_at(i).is_empty());
        assert!(map.table(newer).get_value_nonatomic_at(i).is_empty());
    }
    assert_eq!(map.table(t).chm.copy_done, 0);
    assert!(!map.copy_slot(0, t));
    assert_eq!(map.tables.len(), 2);
    assert_eq!(map.table(t).chm.copy_done, 0);
    assert_eq!(map.table(newer).chm.slots, 0);
    map.copy_check_and_promote(t, 1);
    assert_eq!(map.copy_slot_and_check(t, 1, false), newer);
    assert_eq!(map.get_table_nonatomic(), t);
    assert_eq!(map.table(t).chm.copy_done, 2);
    assert!(map.table(t).get_key_nonatomic_at(2).is_empty());
}

#[test]
fn one_chunk_of_help() {
    let mut map: NonBlockingHashMap<u64, u64> = NonBlockingHashMap::new_with_size(1024);
    let t = map.get_table_nonatomic();
    map.help_copy();
    assert_eq!(map.tables.len(), 1);
    assert_eq!(map.table(t).chm.copy_idx, 0);
    let newer = map.resize(t);
    map.help_copy();
    assert_eq!(map.table(t).chm.copy_idx, 1024);
    assert_eq!(map.table(t).chm.copy_done, 1024);
    for i in 0..4096 {
        assert_eq!(map.table(t).get_key_nonatomic_at(i).is_tombstone(), i < 1024);
    }
    assert_eq!(map.tables.len(), 2);
    assert_eq!(map.table(newer).chm.slots, 0);
    map.help_copy_impl(t, true);
    assert_eq!(map.get_table_nonatomic(), newer);
    assert_eq!(map.table(newer).chm.slots, 0);
    assert!((0..map.len()).all(|i| map.table(newer).get_key_nonatomic_at(i).is_empty()));
}

#[test]
fn promotion_at_a_given_time() {
    let mut map: NonBlockingHashMap<u64, u64> = NonBlockingHashMap::with_slots(8, 100);
    let t = map.get_table_nonatomic();
    let newer = map.resize_at(t, 100);
    for i in 0..8 {
        assert!(map.copy_slot(i, t));
    }
    map.copy_check_and_promote_at(t, 7, 555);
    assert_eq!((map.get_table_nonatomic(), map.last_resize), (t, 100));
    map.copy_check_and_promote_at(t, 1, 777);
    assert_eq!((map.get_table_nonatomic(), map.last_resize), (newer, 777));
    assert_eq!(map.table(t).len(), 0);
    map.copy_check_and_promote_at(t, 0, 999);
    assert_eq!(map.last_resize, 777);
}
