use nonblocking_hashmap::show::{key_to_string, value_to_string};
use nonblocking_hashmap::slot::{Key, Value};

#[test]
fn keys_as_text() {
    assert_eq!(key_to_string(&Key::<i64>::new_empty()), "EMPTY");
    assert_eq!(key_to_string(&Key::<i64>::new_tombstone()), "TOMBSTONE");
    assert_eq!(key_to_string(&Key::new(-12i64)), "-12");
    assert_eq!(key_to_string(&Key::new("name")), "name");
}

#[test]
fn values_as_text() {
    assert_eq!(value_to_string(&Value::<i64>::new_empty()), "EMPTY");
    assert_eq!(value_to_string(&Value::<i64>::new_tombstone()), "TOMBSTONE");
    assert_eq!(value_to_string(&Value::<i64>::new_tombprime()), "TOMBPRIME");
    assert_eq!(value_to_string(&Value::new(7i64)), "7");
    assert_eq!(value_to_string(&Value::new_prime(7i64)), "Prime(7)");
    assert_eq!(value_to_string(&Value::new_prime("v")), "Prime(v)");
}
