use nonblocking_hashmap::hashing::mix_hash;
use nonblocking_hashmap::slot::{
    check_match, fast_keyeq, Key, KeyTypes, MatchingTypes, StableHash, Value, ValueTypes,
};

#[test]
fn test_value_prime_swapping() {
    let value: Value<i64> = Value::new(10);
    let mut cell = value;
    let valueprime = value.get_prime();
    assert!(!cell.is_prime());
    let before = std::mem::replace(&mut cell, valueprime);
    assert!(before == value);
    assert!(cell.get_value() == value.get_value());
    assert!(cell.is_prime());
}

#[test]
#[allow(non_snake_case)]
fn test_KV_destroy() {
    let kv = Key::new(10);
    assert!(*kv.get_key() == 10);
    let kv = Value::new(10);
    assert!(kv.get_value() == Some(&10));
}

#[test]
fn test_vey_eq() {
    assert!(Key::<i64>::new_empty() == Key::<i64>::new_empty());
    assert!(Key::<i64>::new_tombstone() == Key::<i64>::new_tombstone());
    assert!(Key::<i64>::new(10) == Key::<i64>::new(10));
    assert!(Key::<i64>::new(5) != Key::<i64>::new(10));
}

#[test]
fn test_value_eq() {
    assert!(Value::<i64>::new_empty() == Value::<i64>::new_empty());
    assert!(Value::<i64>::new_tombstone() == Value::<i64>::new_tombstone());
    assert!(Value::<i64>::new_tombstone().get_prime() == Value::<i64>::new_tombstone().get_prime());
    assert!(Value::<i64>::new_tombprime() == Value::<i64>::new_tombstone().get_prime());
    assert!(Value::<i64>::new_tombprime() == Value::<i64>::new_tombprime());
    assert!(Value::<i64>::new(10) == Value::<i64>::new(10));
    assert!(Value::<i64>::new(5) != Value::<i64>::new(10));
    assert!(Value::<i64>::new(10).get_prime() == Value::<i64>::new(10).get_prime());
}

#[test]
fn key_kinds() {
    assert_eq!(Key::<i64>::new_empty().keytype(), KeyTypes::KeyEmpty);
    assert_eq!(Key::<i64>::new_tombstone().keytype(), KeyTypes::KeyTombStone);
    assert_eq!(Key::<i64>::new(1).keytype(), KeyTypes::Key);
    assert!(Key::<i64>::new_empty().is_empty());
    assert!(!Key::<i64>::new_empty().is_tombstone());
    assert!(Key::<i64>::new_tombstone().is_tombstone());
    assert!(Key::<i64>::new(1).is_present());
    assert!(Key::<i64>::new_empty() != Key::<i64>::new_tombstone());
    assert!(Key::<i64>::new(1) != Key::<i64>::new_empty());
}

#[test]
fn value_kinds() {
    assert_eq!(Value::<i64>::new_empty().valuetype(), ValueTypes::ValueEmpty);
    assert_eq!(Value::<i64>::new_tombstone().valuetype(), ValueTypes::ValueTombStone);
    assert_eq!(Value::<i64>::new_tombprime().valuetype(), ValueTypes::ValueTombStone);
    assert_eq!(Value::<i64>::new(3).valuetype(), ValueTypes::Value);
    assert_eq!(Value::<i64>::new_prime(3).valuetype(), ValueTypes::Value);
    assert!(Value::<i64>::new_tombprime().is_tombprime());
    assert!(Value::<i64>::new_tombprime().is_tombstone());
    assert!(Value::<i64>::new_tombprime().is_prime());
    assert!(!Value::<i64>::new_prime(3).is_tombprime());
    assert!(Value::<i64>::new_prime(3).is_prime());
    assert!(!Value::<i64>::new(3).is_prime());
    assert!(Value::<i64>::new(3).is_live());
    assert!(!Value::<i64>::new_prime(3).is_live());
    assert!(Value::<i64>::new(3) != Value::<i64>::new_prime(3));
    assert!(Value::<i64>::new_tombstone() != Value::<i64>::new_tombprime());
    assert_eq!(Value::<i64>::new(3).to_live(), Some(3));
    assert_eq!(Value::<i64>::new_prime(3).to_live(), None);
    assert_eq!(Value::<i64>::new_tombstone().to_live(), None);
    assert_eq!(Value::<i64>::new_prime(3).get_value(), Some(&3));
    assert_eq!(Value::<i64>::new_empty().get_value(), None);
}

#[test]
fn priming_and_unpriming() {
    assert!(Value::<i64>::new(7).get_prime() == Value::new_prime(7));
    assert!(Value::<i64>::new_empty().get_prime() == Value::new_tombprime());
    assert!(Value::<i64>::new_tombstone().get_prime() == Value::new_tombprime());
    assert!(Value::<i64>::new_prime(7).get_unprime() == Value::new(7));
    assert!(Value::<i64>::new_tombprime().get_unprime() == Value::new_tombstone());
}

#[test]
fn mix_values() {
    assert_eq!(mix_hash(0), 0x0002_37b8_3031_0ef2);
    assert_eq!(mix_hash(1), 0x0002_37ba_9cfb_7d4a);
    assert_eq!(mix_hash(3), 0x0002_37b8_40b8_c927);
    assert_eq!(mix_hash(0xdead_beef), 0xf997_5189_cf79_21cd);
    assert_eq!(mix_hash(u64::MAX), 0xb715_80ac_f434_b999);
}

#[test]
fn key_hash_is_mixed_own_hash() {
    let k: u64 = 42;
    assert_eq!(Key::new(k).hash(), mix_hash(k.stable_hash()));
    assert_eq!(Key::new(k).hash(), Key::new(k).hash());
    let s: i64 = -42;
    assert_eq!(Key::new(s).hash(), mix_hash(s.stable_hash()));
    assert_ne!(k.stable_hash(), 43u64.stable_hash());
}

#[test]
fn match_any() {
    let none: Option<Value<i64>> = None;
    assert!(check_match(MatchingTypes::MatchAll, &none, &Value::new_empty()));
    assert!(check_match(MatchingTypes::MatchAll, &none, &Value::new_tombstone()));
    assert!(check_match(MatchingTypes::MatchAll, &none, &Value::new(1)));
}

#[test]
fn match_any_not_tombstone() {
    let none: Option<Value<i64>> = None;
    assert!(!check_match(MatchingTypes::MatchAllNotTombStone, &none, &Value::new_empty()));
    assert!(!check_match(MatchingTypes::MatchAllNotTombStone, &none, &Value::new_tombstone()));
    assert!(check_match(MatchingTypes::MatchAllNotTombStone, &none, &Value::new(1)));
}

#[test]
fn match_expected_value() {
    let absent: Option<Value<i64>> = Some(Value::new_empty());
    let tomb: Option<Value<i64>> = Some(Value::new_tombstone());
    let one: Option<Value<i64>> = Some(Value::new(1));
    assert!(check_match(MatchingTypes::MatchValue, &absent, &Value::new_empty()));
    assert!(check_match(MatchingTypes::MatchValue, &absent, &Value::new_tombstone()));
    assert!(!check_match(MatchingTypes::MatchValue, &absent, &Value::new(1)));
    assert!(check_match(MatchingTypes::MatchValue, &tomb, &Value::new_empty()));
    assert!(check_match(MatchingTypes::MatchValue, &tomb, &Value::new_tombstone()));
    assert!(!check_match(MatchingTypes::MatchValue, &tomb, &Value::new(1)));
    assert!(check_match(MatchingTypes::MatchValue, &one, &Value::new(1)));
    assert!(!check_match(MatchingTypes::MatchValue, &one, &Value::new(2)));
    assert!(!check_match(MatchingTypes::MatchValue, &one, &Value::new_empty()));
    assert!(!check_match(MatchingTypes::MatchValue, &one, &Value::new_tombstone()));
    let none: Option<Value<i64>> = None;
    assert!(!check_match(MatchingTypes::MatchValue, &none, &Value::new(1)));
}

#[test]
fn match_forward() {
    let none: Option<Value<i64>> = None;
    assert!(check_match(MatchingTypes::FromCopySlot, &none, &Value::new_empty()));
    assert!(!check_match(MatchingTypes::FromCopySlot, &none, &Value::new_tombstone()));
    assert!(!check_match(MatchingTypes::FromCopySlot, &none, &Value::new(1)));
}

#[test]
fn fast_key_comparison() {
    let a: Key<i64> = Key::new(5);
    let b: Key<i64> = Key::new(5);
    let c: Key<i64> = Key::new(6);
    assert!(fast_keyeq(&a, 77, &b, 77));
    assert!(fast_keyeq(&a, 0, &b, 77));
    assert!(!fast_keyeq(&a, 78, &b, 77));
    assert!(!fast_keyeq(&c, 77, &b, 77));
    assert!(!fast_keyeq(&Key::<i64>::new_tombstone(), 0, &Key::new_tombstone(), 0));
    assert!(fast_keyeq(&Key::<i64>::new_empty(), 0, &Key::new_empty(), 5));
}
