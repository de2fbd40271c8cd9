use nonblocking_hashmap::map::NonBlockingHashMap;
use nonblocking_hashmap::slot::{Identity, Key, MatchingTypes, StableHash, Value};
use nonblocking_hashmap::table::KVs;
use std::collections::hash_map::DefaultHasher;
use std::collections::HashMap;
use std::hash::{Hash, Hasher};

/// A text that can be a key or a value.
#[derive(Clone, Copy, Debug, PartialEq, Eq, Hash)]
struct Text(&'static str);

impl Identity for Text {
    fn same(&self, other: &Self) -> bool {
        self.0 == other.0
    }
}

impl StableHash for Text {
    fn hash_spec(&self) -> u64 {
        self.stable_hash()
    }

    fn stable_hash(&self) -> u64 {
        let mut hasher = DefaultHasher::new();
        self.0.hash(&mut hasher);
        hasher.finish()
    }
}

/// A key whose hash the test chooses.
#[derive(Clone, Copy, Debug, PartialEq, Eq, Hash)]
struct Pinned {
    id: u64,
    hash: u64,
}

impl Identity for Pinned {
    fn same(&self, other: &Self) -> bool {
        self.id == other.id
    }
}

impl StableHash for Pinned {
    fn hash_spec(&self) -> u64 {
        self.hash
    }

    fn stable_hash(&self) -> u64 {
        self.hash
    }
}

fn text(s: String) -> Text {
    Text(Box::leak(s.into_boxed_str()))
}

/// The slots of the live tables that hold `key`, as (table, slot).
fn slots_of<K: StableHash, V: Identity>(map: &NonBlockingHashMap<K, V>, key: K) -> Vec<(usize, usize)> {
    let mut found = Vec::new();
    let cell = Key::new(key);
    for t in map.kvs..map.tables.len() {
        let table: &KVs<K, V> = map.table(t);
        for i in 0..table.len() {
            if *table.get_key_nonatomic_at(i) == cell {
                found.push((t, i));
            }
        }
    }
    found
}

/// Checks what must hold of a map between any two operations.
fn check_shape<K: StableHash, V: Identity>(map: &NonBlockingHashMap<K, V>) {
    assert!(map.kvs < map.tables.len());
    for t in 0..map.tables.len() {
        let table = map.table(t);
        let next = if t + 1 < map.tables.len() { Some(t + 1) } else { None };
        assert_eq!(table.chm.get_newkvs_nonatomic(), next);
        assert_eq!(table.chm.has_newkvs, next.is_some());
        if t < map.kvs {
            assert_eq!(table.len(), 0);
            continue;
        }
        let n = table.len();
        assert!(n >= 8 && n.is_power_of_two());
        assert_eq!(table.vs.len(), n);
        assert_eq!(table.hashes.len(), n);
        let mut used = 0;
        let mut live = 0;
        let mut terminal = 0;
        for i in 0..n {
            let k = table.get_key_nonatomic_at(i);
            let v = table.get_value_nonatomic_at(i);
            if k.is_present() {
                used += 1;
                assert_eq!(table.hashes[i], k.hash());
                let home = (k.hash() % n as u64) as usize;
                let dist = (i + n - home) % n;
                assert!(dist < 10);
                for d in 0..dist {
                    assert!(!table.get_key_nonatomic_at((home + d) % n).is_empty());
                }
                for j in 0..i {
                    assert!(*table.get_key_nonatomic_at(j) != *k);
                }
            } else {
                assert!(v.is_empty());
            }
            if v.is_live() {
                live += 1;
            }
            if k.is_tombstone() || v.is_tombprime() {
                terminal += 1;
            }
            if t + 1 == map.tables.len() {
                assert!(!k.is_tombstone());
                assert!(!v.is_prime());
            }
        }
        assert_eq!(table.chm.slots, used);
        assert!(live <= table.chm.size);
        assert!(table.chm.size <= used);
        assert_eq!(table.chm.copy_done, terminal);
    }
}

#[test]
fn test_hashmap_init() {
    let map = NonBlockingHashMap::<i64, i64>::new_with_size(10);
    assert!(map.len() == 16 * 4);
    assert!(map.table(map.get_table_nonatomic()).chm.get_newkvs_nonatomic().is_none());
}

#[test]
fn test_hashmap_resize() {
    let mut map1 = NonBlockingHashMap::<i64, i64>::new_with_size(10);
    let kvs = map1.get_table_nonatomic();
    map1.resize(kvs);
    let newkvs = map1.table(kvs).chm.get_newkvs_nonatomic().unwrap();
    assert!(map1.table(newkvs).len() == 16 * 4 * 2);
    let kvs = newkvs;
    map1.resize(kvs);
    let newkvs = map1.table(kvs).chm.get_newkvs_nonatomic().unwrap();
    assert!(map1.table(newkvs).len() == 16 * 4 * 4);
    let mut map2 = NonBlockingHashMap::<i64, i64>::new_with_size(10);
    let later = map2.last_resize + 2;
    let kvs = map2.get_table_nonatomic();
    map2.resize_at(kvs, later);
    let newkvs = map2.table(kvs).chm.get_newkvs_nonatomic().unwrap();
    assert!(map2.table(newkvs).len() == 16 * 4);
}

#[test]
fn init_sizes() {
    assert_eq!(NonBlockingHashMap::<i64, i64>::new().len(), 16);
    assert_eq!(NonBlockingHashMap::<i64, i64>::new_with_size(0).len(), 32);
    assert_eq!(NonBlockingHashMap::<i64, i64>::new_with_size(3).len(), 32);
    assert_eq!(NonBlockingHashMap::<i64, i64>::new_with_size(8).len(), 32);
    assert_eq!(NonBlockingHashMap::<i64, i64>::new_with_size(9).len(), 64);
    assert_eq!(NonBlockingHashMap::<i64, i64>::new_with_size(16).len(), 64);
    assert_eq!(NonBlockingHashMap::<i64, i64>::new_with_size(17).len(), 128);
    assert_eq!(NonBlockingHashMap::<i64, i64>::new_with_size(1 << 20).len(), 1 << 22);
    assert_eq!(NonBlockingHashMap::<i64, i64>::new_with_size((1 << 20) + 1).len(), 1 << 22);
    let map = NonBlockingHashMap::<i64, i64>::new();
    assert_eq!(map.tables.len(), 1);
    assert_eq!(map.get_table_nonatomic(), 0);
    check_shape(&map);
}

#[test]
fn insert_and_read() {
    let mut map: NonBlockingHashMap<Text, Text> = NonBlockingHashMap::new();
    assert_eq!(map.put(Text("k0"), Text("v0")), None);
    assert_eq!(map.get(Text("k0")), Some(Text("v0")));
    assert!(map.len() >= 1);
    assert_eq!(map.table(map.kvs).chm.size, 1);
    check_shape(&map);
}

#[test]
fn replace_semantics() {
    let mut map: NonBlockingHashMap<Text, Text> = NonBlockingHashMap::new();
    map.put(Text("k"), Text("a"));
    assert!(map.replace_if(Text("k"), Text("a"), Text("b")));
    assert_eq!(map.get(Text("k")), Some(Text("b")));
    assert!(!map.replace_if(Text("k"), Text("a"), Text("c")));
    assert_eq!(map.get(Text("k")), Some(Text("b")));
    check_shape(&map);
}

#[test]
fn absent_semantics() {
    let mut map: NonBlockingHashMap<Text, Text> = NonBlockingHashMap::new();
    assert_eq!(map.remove(Text("k_missing")), None);
    assert_eq!(map.get(Text("k_missing")), None);
    assert!(slots_of(&map, Text("k_missing")).is_empty());
    assert_eq!(map.table(map.kvs).chm.slots, 0);
    check_shape(&map);
}

#[test]
fn trigger_resize() {
    let mut map: NonBlockingHashMap<Text, Text> = NonBlockingHashMap::new_with_size(10);
    assert_eq!(map.len(), 64);
    let mut keys = Vec::new();
    for i in 0..10 {
        let k = text(format!("key{}", i));
        let v = text(format!("value{}", i));
        assert_eq!(map.put(k, v), None);
        keys.push((k, v));
    }
    for (k, v) in keys.iter() {
        assert_eq!(map.get(*k), Some(*v));
    }
    let mut i = 10;
    while map.len() < 256 {
        let k = text(format!("key{}", i));
        let v = text(format!("value{}", i));
        assert_eq!(map.put(k, v), None);
        keys.push((k, v));
        i += 1;
        assert!(i < 10_000);
        for (k, v) in keys.iter() {
            assert_eq!(map.get(*k), Some(*v));
        }
        check_shape(&map);
    }
    assert!(map.len() >= 256);
}

#[test]
fn two_resizes_in_rapid_succession() {
    let mut map = NonBlockingHashMap::<i64, i64>::new_with_size(10);
    let now = map.last_resize;
    let root = map.get_table_nonatomic();
    let first = map.resize_at(root, now);
    let first_len = map.table(first).len();
    assert_eq!(first_len, 128);
    let second = map.resize_at(first, now + 1);
    assert_eq!(map.table(second).len(), 2 * first_len);
    let third = map.resize_at(second, now + 2);
    assert_eq!(map.table(third).len(), map.table(second).len());
    assert_eq!(map.resize_at(root, now + 100), first);
    assert_eq!(map.tables.len(), 4);
    assert_eq!(map.get_kvs_level(0), Some(root));
    assert_eq!(map.get_kvs_level(1), Some(first));
    assert_eq!(map.get_kvs_level(3), Some(third));
    assert_eq!(map.get_kvs_level(4), None);
    assert_eq!(map.get_kvs_level_impl(Some(second), 1), Some(third));
    assert_eq!(map.get_kvs_level_impl(None, 0), None);
    check_shape(&map);
}

#[test]
fn no_lost_insert() {
    let mut map: NonBlockingHashMap<u64, u64> = NonBlockingHashMap::new();
    for k in 0..500u64 {
        if map.put(k, k * 3).is_none() {
            assert_eq!(map.get(k), Some(k * 3));
        }
    }
    check_shape(&map);
}

#[test]
fn put_returns_prior_value() {
    let mut map: NonBlockingHashMap<u64, u64> = NonBlockingHashMap::new();
    assert_eq!(map.put(1, 10), None);
    assert_eq!(map.put(1, 11), Some(10));
    assert_eq!(map.put(1, 11), Some(11));
    assert_eq!(map.remove(1), Some(11));
    assert_eq!(map.remove(1), None);
    assert_eq!(map.put(1, 12), None);
    assert_eq!(map.get(1), Some(12));
    assert_eq!(slots_of(&map, 1).len(), 1);
}

#[test]
fn put_if_absent_writes_once() {
    let mut map: NonBlockingHashMap<u64, u64> = NonBlockingHashMap::new();
    assert_eq!(map.put_if_absent(1, 10), None);
    assert_eq!(map.put_if_absent(1, 11), Some(10));
    assert_eq!(map.get(1), Some(10));
    assert_eq!(map.remove(1), Some(10));
    assert_eq!(map.put_if_absent(1, 12), None);
    assert_eq!(map.get(1), Some(12));
}

#[test]
fn replace_needs_a_value() {
    let mut map: NonBlockingHashMap<u64, u64> = NonBlockingHashMap::new();
    assert_eq!(map.replace(1, 10), None);
    assert_eq!(map.get(1), None);
    map.put(1, 10);
    assert_eq!(map.replace(1, 11), Some(10));
    assert_eq!(map.get(1), Some(11));
    map.remove(1);
    assert_eq!(map.replace(1, 12), None);
    assert_eq!(map.get(1), None);
}

#[test]
fn remove_if_compares() {
    let mut map: NonBlockingHashMap<u64, u64> = NonBlockingHashMap::new();
    assert!(!map.remove_if(1, 10));
    map.put(1, 10);
    assert!(!map.remove_if(1, 11));
    assert_eq!(map.get(1), Some(10));
    assert!(map.remove_if(1, 10));
    assert_eq!(map.get(1), None);
    assert!(!map.remove_if(1, 10));
}

#[test]
fn put_if_match_policies() {
    let mut map: NonBlockingHashMap<u64, u64> = NonBlockingHashMap::new();
    let r = map.put_if_match(1, Value::new(10), MatchingTypes::MatchAllNotTombStone, None);
    assert_eq!(r.to_live(), None);
    assert_eq!(map.get(1), None);
    let r = map.put_if_match(1, Value::new(10), MatchingTypes::MatchValue, Some(Value::new_empty()));
    assert_eq!(r.to_live(), None);
    assert_eq!(map.get(1), Some(10));
    let r = map.put_if_match(1, Value::new(11), MatchingTypes::MatchValue, Some(Value::new(9)));
    assert_eq!(r.to_live(), Some(10));
    assert_eq!(map.get(1), Some(10));
    let r = map.put_if_match(1, Value::new(11), MatchingTypes::MatchValue, Some(Value::new(10)));
    assert_eq!(r.to_live(), Some(10));
    assert_eq!(map.get(1), Some(11));
    let r = map.put_if_match(1, Value::new_tombstone(), MatchingTypes::MatchAll, None);
    assert_eq!(r.to_live(), Some(11));
    assert_eq!(map.get(1), None);
    let r = map.put_if_match(1, Value::new(12), MatchingTypes::MatchValue, Some(Value::new_tombstone()));
    assert!(!r.is_prime());
    assert_eq!(r.to_live(), None);
    assert_eq!(map.get(1), Some(12));
    let root = map.get_table_nonatomic();
    let r = map.put_if_match_to_kvs(root, 2, Value::new(20), MatchingTypes::MatchAll, None);
    assert_eq!(r.to_live(), None);
    assert_eq!(map.get(2), Some(20));
}

/// Eleven keys with one hash: the eleventh finds no room within the reprobe limit.
#[test]
fn colliding_keys_overflow_into_successor() {
    let mut map: NonBlockingHashMap<Pinned, u64> = NonBlockingHashMap::new_with_size(0);
    assert_eq!(map.len(), 32);
    for id in 0..10u64 {
        assert_eq!(map.put(Pinned { id, hash: 7 }, id), None);
        assert_eq!(map.tables.len(), 1);
    }
    assert_eq!(map.put(Pinned { id: 10, hash: 7 }, 10), None);
    check_shape(&map);
    for id in 0..11u64 {
        assert_eq!(map.get(Pinned { id, hash: 7 }), Some(id));
        assert!(slots_of(&map, Pinned { id, hash: 7 }).len() >= 1);
    }
    check_shape(&map);
    for id in 11..40u64 {
        assert_eq!(map.put(Pinned { id, hash: 7 }, id), None);
        check_shape(&map);
        for seen in 0..=id {
            assert_eq!(map.get(Pinned { id: seen, hash: 7 }), Some(seen));
        }
    }
    for id in 0..40u64 {
        assert_eq!(map.remove(Pinned { id, hash: 7 }), Some(id));
        assert_eq!(map.get(Pinned { id, hash: 7 }), None);
    }
    check_shape(&map);
}

/// A table of more than a thousand slots is migrated a chunk at a time: between the
/// chunks the map answers from two tables.
#[test]
fn reads_and_writes_during_migration() {
    let mut map: NonBlockingHashMap<u64, u64> = NonBlockingHashMap::new_with_size(1024);
    assert_eq!(map.len(), 4096);
    let mut model = HashMap::new();
    for k in 0..1500u64 {
        assert_eq!(map.put(k, k + 1), model.insert(k, k + 1));
    }
    let root = map.get_table_nonatomic();
    let now = map.last_resize;
    let newer = map.resize_at(root, now);
    assert_eq!(map.table(newer).len(), 2 * 4096);
    check_shape(&map);
    for k in 0..1500u64 {
        assert_eq!(map.get(k), model.get(&k).copied());
    }
    let mut steps = 0;
    while map.get_table_nonatomic() == root {
        let k = 2000 + steps;
        assert_eq!(map.put(k, k), model.insert(k, k));
        assert_eq!(map.remove(steps), model.remove(&steps));
        check_shape(&map);
        for probe in [0u64, 1, 7, 700, 1499, 2000, 2001, 5000] {
            assert_eq!(map.get(probe), model.get(&probe).copied());
        }
        steps += 1;
        assert!(steps < 100);
    }
    assert!(steps >= 2);
    assert_eq!(map.get_table_nonatomic(), newer);
    assert_eq!(map.table(root).len(), 0);
    for k in 0..3000u64 {
        assert_eq!(map.get(k), model.get(&k).copied());
    }
    check_shape(&map);
}

#[test]
fn copy_slot_is_idempotent() {
    let mut map: NonBlockingHashMap<u64, u64> = NonBlockingHashMap::new_with_size(1024);
    for k in 0..100u64 {
        map.put(k, k);
    }
    map.remove(5);
    let root = map.get_table_nonatomic();
    let now = map.last_resize;
    let newer = map.resize_at(root, now + 10);
    let live = slots_of(&map, 7)[0].1;
    let dead = slots_of(&map, 5)[0].1;
    let mut empty = 0;
    while !map.table(root).get_key_nonatomic_at(empty).is_empty() {
        empty += 1;
    }
    assert!(map.copy_slot(live, root));
    assert!(map.table(root).get_value_nonatomic_at(live).is_tombprime());
    assert!(!map.copy_slot(live, root));
    assert_eq!(slots_of(&map, 7).len(), 2);
    assert!(map.copy_slot(dead, root));
    assert!(!map.copy_slot(dead, root));
    assert_eq!(slots_of(&map, 5).len(), 1);
    assert!(map.copy_slot(empty, root));
    assert!(map.table(root).get_key_nonatomic_at(empty).is_tombstone());
    assert!(!map.copy_slot(empty, root));
    map.copy_check_and_promote(root, 3);
    assert_eq!(map.table(root).chm.copy_done, 3);
    assert_eq!(map.get_table_nonatomic(), root);
    check_shape(&map);
    assert_eq!(map.get(7), Some(7));
    assert_eq!(map.get(5), None);
    assert_eq!(map.copy_slot_and_check(root, live, false), newer);
    assert_eq!(map.table(root).chm.copy_done, 3);
    let other = slots_of(&map, 8)[0].1;
    assert_eq!(map.copy_slot_and_check(root, other, false), newer);
    assert_eq!(map.table(root).chm.copy_done, 4);
    check_shape(&map);
    for k in 0..100u64 {
        assert_eq!(map.get(k), if k == 5 { None } else { Some(k) });
    }
}

#[test]
fn help_copy_all_moves_the_root_on() {
    let mut map: NonBlockingHashMap<u64, u64> = NonBlockingHashMap::new_with_size(1024);
    for k in 0..3000u64 {
        map.put(k, 2 * k);
    }
    while map.tables.len() - map.kvs > 1 {
        map.help_copy();
    }
    let root = map.get_table_nonatomic();
    let cap = map.len();
    let now = map.last_resize;
    let newer = map.resize_at(root, now + 10);
    map.help_copy();
    assert_eq!(map.get_table_nonatomic(), root);
    assert_eq!(map.table(root).chm.copy_idx, 1024);
    assert!(map.table(root).chm.copy_done >= 1024);
    check_shape(&map);
    map.help_copy_impl(root, true);
    assert_eq!(map.table(root).chm.copy_done, cap);
    assert_eq!(map.get_table_nonatomic(), newer);
    check_shape(&map);
    for k in 0..3000u64 {
        assert_eq!(map.get(k), Some(2 * k));
    }
    map.help_copy();
    assert_eq!(map.get_table_nonatomic(), newer);
}

#[test]
fn helper_goes_round_once_the_cursor_has() {
    let mut map: NonBlockingHashMap<u64, u64> = NonBlockingHashMap::new_with_size(0);
    for k in 0..5u64 {
        map.put(k, k);
    }
    let root = map.get_table_nonatomic();
    let now = map.last_resize;
    let newer = map.resize_at(root, now + 10);
    map.tables[root].chm.copy_idx = 64;
    map.help_copy();
    assert_eq!(map.get_table_nonatomic(), newer);
    assert_eq!(map.table(root).chm.copy_idx, 64);
    assert_eq!(map.table(root).chm.copy_done, 32);
    check_shape(&map);
    for k in 0..5u64 {
        assert_eq!(map.get(k), Some(k));
    }
}

#[test]
fn root_only_moves_forward() {
    let mut map: NonBlockingHashMap<u64, u64> = NonBlockingHashMap::new_with_size(0);
    let mut root = map.get_table_nonatomic();
    let mut links: Vec<Option<usize>> = Vec::new();
    for k in 0..2000u64 {
        map.put(k, k);
        if k % 3 == 0 {
            map.remove(k / 2);
        }
        assert!(map.get_table_nonatomic() >= root);
        root = map.get_table_nonatomic();
        for (t, link) in links.iter().enumerate() {
            if link.is_some() {
                assert_eq!(map.table(t).chm.get_newkvs_nonatomic(), *link);
            }
        }
        links = (0..map.tables.len()).map(|t| map.table(t).chm.get_newkvs_nonatomic()).collect();
    }
    assert!(root > 0);
    check_shape(&map);
}

#[test]
fn at_most_one_live_slot_per_key() {
    let mut map: NonBlockingHashMap<u64, u64> = NonBlockingHashMap::new_with_size(0);
    for round in 0..5u64 {
        for k in 0..300u64 {
            map.put(k, k + round);
        }
        for k in 0..300u64 {
            if k % 4 == round % 4 {
                map.remove(k);
            }
        }
    }
    for k in 0..300u64 {
        let mut live = 0;
        for (t, i) in slots_of(&map, k) {
            if map.table(t).get_value_nonatomic_at(i).is_live() {
                live += 1;
            }
            assert_eq!(slots_of(&map, k).iter().filter(|(t2, _)| *t2 == t).count(), 1);
        }
        assert!(live <= 1);
    }
    check_shape(&map);
}

/// The states of a slot, as numbers: 0 unused, 1 sealed, 2 claimed, 3 deleted, 4 live,
/// 5 frozen, 6 moved.
fn state_of(k: &Key<u64>, v: &Value<u64>) -> u8 {
    if k.is_empty() {
        0
    } else if k.is_tombstone() {
        1
    } else if v.is_empty() {
        2
    } else if v.is_tombprime() {
        6
    } else if v.is_tombstone() {
        3
    } else if v.is_prime() {
        5
    } else {
        4
    }
}

fn reaches(a: u8, b: u8) -> bool {
    match a {
        0 => true,
        1 => b == 1,
        2 => b >= 2,
        3 | 4 => b >= 3,
        5 => b >= 5,
        _ => b == 6,
    }
}

type Snapshot = Vec<Vec<(Key<u64>, Value<u64>)>>;

fn snapshot(map: &NonBlockingHashMap<u64, u64>) -> Snapshot {
    (0..map.tables.len())
        .map(|t| {
            let table = map.table(t);
            (0..table.len())
                .map(|i| (*table.get_key_nonatomic_at(i), *table.get_value_nonatomic_at(i)))
                .collect()
        })
        .collect()
}

fn check_forward(before: &Snapshot, root_before: usize, map: &NonBlockingHashMap<u64, u64>) {
    assert!(map.kvs >= root_before);
    assert!(map.tables.len() >= before.len());
    for t in map.kvs..before.len() {
        let table = map.table(t);
        assert_eq!(table.len(), before[t].len());
        for i in 0..table.len() {
            let (k1, v1) = &before[t][i];
            let k2 = table.get_key_nonatomic_at(i);
            let v2 = table.get_value_nonatomic_at(i);
            assert!(reaches(state_of(k1, v1), state_of(k2, v2)));
            if !k1.is_empty() {
                assert!(*k2 == *k1);
            }
            if v1.is_prime() && !v1.is_tombprime() {
                assert!(*v2 == *v1 || v2.is_tombprime());
            }
        }
    }
}

#[test]
fn slots_only_move_forward() {
    let mut state: u64 = 7;
    let mut map: NonBlockingHashMap<u64, u64> = NonBlockingHashMap::new_with_size(0);
    for step in 0..3_000u64 {
        let before = snapshot(&map);
        let root = map.kvs;
        let k = next_random(&mut state) % 400;
        match next_random(&mut state) % 6 {
            0 | 1 | 2 => {
                map.put(k, step);
            }
            3 => {
                map.remove(k);
            }
            4 => {
                map.get(k);
            }
            _ => {
                if map.tables.len() - map.kvs > 1 {
                    let slot = (next_random(&mut state) as usize) % map.len();
                    let root = map.kvs;
                    map.copy_slot_and_check(root, slot, false);
                } else if step % 50 == 0 {
                    let root = map.kvs;
                    let now = map.last_resize;
                    map.resize_at(root, now);
                }
            }
        }
        check_forward(&before, root, &map);
    }
    check_shape(&map);
}

fn next_random(state: &mut u64) -> u64 {
    *state = state.wrapping_mul(6364136223846793005).wrapping_add(1442695040888963407);
    *state >> 33
}

#[test]
fn round_trip_against_a_model() {
    let mut state: u64 = 0x1234_5678;
    let mut map: NonBlockingHashMap<u64, u64> = NonBlockingHashMap::new_with_size(0);
    let mut model: HashMap<u64, u64> = HashMap::new();
    for step in 0..20_000u64 {
        let k = next_random(&mut state) % 700;
        let v = next_random(&mut state) % 5;
        match next_random(&mut state) % 7 {
            0 => assert_eq!(map.put(k, v), model.insert(k, v)),
            1 => {
                let prior = model.get(&k).copied();
                assert_eq!(map.put_if_absent(k, v), prior);
                model.entry(k).or_insert(v);
            }
            2 => {
                let prior = model.get(&k).copied();
                assert_eq!(map.replace(k, v), prior);
                if prior.is_some() {
                    model.insert(k, v);
                }
            }
            3 => {
                let w = next_random(&mut state) % 5;
                let hit = model.get(&k) == Some(&v);
                assert_eq!(map.replace_if(k, v, w), hit);
                if hit {
                    model.insert(k, w);
                }
            }
            4 => assert_eq!(map.remove(k), model.remove(&k)),
            5 => {
                let hit = model.get(&k) == Some(&v);
                assert_eq!(map.remove_if(k, v), hit);
                if hit {
                    model.remove(&k);
                }
            }
            _ => assert_eq!(map.get(k), model.get(&k).copied()),
        }
        if step % 500 == 0 {
            check_shape(&map);
        }
    }
    for k in 0..700u64 {
        assert_eq!(map.get(k), model.get(&k).copied());
    }
    check_shape(&map);
}

#[test]
fn round_trip_with_crowded_hashes() {
    let mut state: u64 = 99;
    let mut map: NonBlockingHashMap<Pinned, u64> = NonBlockingHashMap::new_with_size(0);
    let mut model: HashMap<u64, u64> = HashMap::new();
    for step in 0..4_000u64 {
        let id = next_random(&mut state) % 200;
        let key = Pinned { id, hash: id % 3 };
        let v = next_random(&mut state);
        if next_random(&mut state) % 3 == 0 {
            assert_eq!(map.remove(key), model.remove(&id));
        } else {
            assert_eq!(map.put(key, v), model.insert(id, v));
        }
        if step % 200 == 0 {
            check_shape(&map);
        }
    }
    for id in 0..200u64 {
        assert_eq!(map.get(Pinned { id, hash: id % 3 }), model.get(&id).copied());
    }
    check_shape(&map);
}

#[test]
fn last_write_wins() {
    let mut map: NonBlockingHashMap<Text, u64> = NonBlockingHashMap::new();
    map.put(Text("a"), 1);
    map.put(Text("b"), 2);
    map.put(Text("a"), 3);
    map.remove(Text("b"));
    map.put(Text("c"), 4);
    map.remove(Text("c"));
    map.put(Text("c"), 5);
    assert_eq!(map.get(Text("a")), Some(3));
    assert_eq!(map.get(Text("b")), None);
    assert_eq!(map.get(Text("c")), Some(5));
}

#[test]
fn default_map() {
    let map = NonBlockingHashMap::<i64, i64>::new();
    assert_eq!(map.len(), 16);
    assert_eq!(map.size(), 0);
    assert_eq!(map.tables.len(), 1);
    assert!(map.table(0).chm.get_newkvs_nonatomic().is_none());
    for i in 0..16 {
        assert!(map.table(0).get_key_nonatomic_at(i).is_empty());
        assert!(map.table(0).get_value_nonatomic_at(i).is_empty());
    }
}

#[test]
fn map_made_at_a_given_time() {
    let map = NonBlockingHashMap::<i64, i64>::new_with_size_at(10, 1234);
    assert_eq!(map.last_resize, 1234);
    assert_eq!(map.len(), 64);
    let map = NonBlockingHashMap::<i64, i64>::with_slots(8, -5);
    assert_eq!(map.last_resize, -5);
    assert_eq!(map.len(), 8);
    let map = NonBlockingHashMap::<i64, i64>::new_with_size(10);
    assert!(map.last_resize > 1_600_000_000);
}

/// All cells and counters of a map, to compare two states.
fn state_of_map(map: &NonBlockingHashMap<u64, u64>) -> Vec<(Vec<Key<u64>>, Vec<Value<u64>>, Vec<u64>, [usize; 4], Option<usize>)> {
    map.tables
        .iter()
        .map(|t| {
            (
                t.ks.clone(),
                t.vs.clone(),
                t.hashes.clone(),
                [t.chm.size, t.chm.slots, t.chm.copy_done, t.chm.copy_idx],
                t.chm.newkvs,
            )
        })
        .collect()
}

fn same_cells(a: &NonBlockingHashMap<u64, u64>, b: &Vec<(Vec<Key<u64>>, Vec<Value<u64>>, Vec<u64>, [usize; 4], Option<usize>)>) -> bool {
    let now = state_of_map(a);
    now.len() == b.len()
        && now.iter().zip(b.iter()).all(|(x, y)| {
            x.0.len() == y.0.len()
                && x.0.iter().zip(y.0.iter()).all(|(p, q)| p == q)
                && x.1.iter().zip(y.1.iter()).all(|(p, q)| p == q)
                && x.2 == y.2
                && x.3 == y.3
                && x.4 == y.4
        })
}

#[test]
fn a_first_put_lands_in_one_slot() {
    let mut map: NonBlockingHashMap<u64, u64> = NonBlockingHashMap::new_with_size(10);
    let before = state_of_map(&map);
    let key = Key::new(1u64);
    let home = (key.hash() % 64) as usize;
    assert_eq!(map.put(1, 10), None);
    assert_eq!(map.kvs, 0);
    assert_eq!(map.tables.len(), 1);
    let t = map.table(0);
    assert!(*t.get_key_nonatomic_at(home) == key);
    assert!(*t.get_value_nonatomic_at(home) == Value::new(10));
    assert_eq!(t.hashes[home], key.hash());
    assert_eq!(t.chm.slots, 1);
    assert_eq!(t.chm.size, 1);
    assert!(t.chm.get_newkvs_nonatomic().is_none());
    for i in 0..64 {
        if i != home {
            assert!(*t.get_key_nonatomic_at(i) == before[0].0[i]);
            assert!(*t.get_value_nonatomic_at(i) == before[0].1[i]);
            assert_eq!(t.hashes[i], 0);
        }
    }
    assert_eq!(map.put(1, 11), Some(10));
    assert_eq!(map.table(0).chm.slots, 1);
    assert_eq!(map.table(0).chm.size, 1);
}

#[test]
fn replace_by_value_on_one_table() {
    let mut map: NonBlockingHashMap<u64, u64> = NonBlockingHashMap::new_with_size(10);
    let t = map.get_table_nonatomic();
    let r = map.put_if_match_impl(t, Key::new(1), Value::new(10), MatchingTypes::MatchAll, None, true);
    assert!(r == Value::new_tombstone());
    let r = map.put_if_match_impl(
        t,
        Key::new(1),
        Value::new(20),
        MatchingTypes::MatchValue,
        Some(Value::new(10)),
        true,
    );
    assert!(r == Value::new(10) && !r.is_prime());
    let idx = slots_of(&map, 1)[0].1;
    assert!(*map.table(t).get_value_nonatomic_at(idx) == Value::new(20));
    assert_eq!((map.table(t).chm.size, map.table(t).chm.slots), (1, 1));
    let before = state_of_map(&map);
    let r = map.put_if_match_impl(
        t,
        Key::new(1),
        Value::new(30),
        MatchingTypes::MatchValue,
        Some(Value::new(10)),
        true,
    );
    assert!(r == Value::new(20));
    assert!(same_cells(&map, &before));
    assert_eq!(map.kvs, 0);
    assert!(map.table(t).chm.get_newkvs_nonatomic().is_none());
}

#[test]
fn removing_a_missing_key_changes_nothing() {
    let mut map: NonBlockingHashMap<u64, u64> = NonBlockingHashMap::new_with_size(10);
    map.put(3, 3);
    let before = state_of_map(&map);
    let stamp = map.last_resize;
    let t = map.get_table_nonatomic();
    let r = map.put_if_match_impl(t, Key::new(7), Value::new_tombstone(), MatchingTypes::MatchAll, None, true);
    assert!(r == Value::new_tombstone() && !r.is_prime());
    assert!(same_cells(&map, &before));
    assert_eq!(map.remove(8), None);
    assert!(!map.remove_if(9, 1));
    assert!(same_cells(&map, &before));
    assert_eq!((map.kvs, map.last_resize), (0, stamp));
}

#[test]
fn a_rejected_write_changes_nothing_where_the_key_has_a_slot() {
    let mut map: NonBlockingHashMap<u64, u64> = NonBlockingHashMap::new_with_size(10);
    map.put(3, 3);
    map.remove(3);
    let before = state_of_map(&map);
    assert_eq!(map.replace(3, 4), None);
    assert!(!map.replace_if(3, 3, 4));
    assert!(same_cells(&map, &before));
    map.put(3, 5);
    let before = state_of_map(&map);
    assert_eq!(map.put_if_absent(3, 6), Some(5));
    assert!(!map.replace_if(3, 4, 6));
    assert!(!map.remove_if(3, 4));
    assert!(same_cells(&map, &before));
}

#[test]
fn a_rejected_write_of_a_new_key_claims_its_slot_only() {
    let mut map: NonBlockingHashMap<u64, u64> = NonBlockingHashMap::new_with_size(10);
    assert_eq!(map.replace(3, 4), None);
    let idx = slots_of(&map, 3)[0].1;
    assert_eq!(idx, (Key::new(3u64).hash() % 64) as usize);
    assert!(map.table(0).get_value_nonatomic_at(idx).is_empty());
    assert_eq!((map.table(0).chm.size, map.table(0).chm.slots), (0, 1));
    assert_eq!(map.tables.len(), 1);
    assert_eq!(map.get(3), None);
}
