//! Cells as text, for diagnostics.

use vstd::prelude::*;
use vstd::string::{StringExecFns, to_string_from_display_ensures};
use std::fmt::Display;
use crate::slot::{Key, Value};

verus! {

/// A key cell as text: the key as it displays itself, or the kind of a cell without a key.
pub fn key_to_string<K: Display>(key: &Key<K>) -> (text: String)
    ensures
        match *key {
            Key::TombStone => text@ == "TOMBSTONE"@,
            Key::Empty => text@ == "EMPTY"@,
            Key::Present(k) => to_string_from_display_ensures::<K>(&k, text),
        },
{
    match key {
        Key::TombStone => String::from_str("TOMBSTONE"),
        Key::Empty => String::from_str("EMPTY"),
        Key::Present(k) => k.to_string(),
    }
}

/// A value cell as text: the value as it displays itself, inside `Prime(` and `)` if it is
/// frozen, or the kind of a cell without a value.
pub fn value_to_string<V: Display>(value: &Value<V>) -> (text: String)
    ensures
        match *value {
            Value::TombPrime => text@ == "TOMBPRIME"@,
            Value::TombStone => text@ == "TOMBSTONE"@,
            Value::Empty => text@ == "EMPTY"@,
            Value::Present(v) => to_string_from_display_ensures::<V>(&v, text),
            Value::Prime(v) => exists|inner: String|
                #[trigger] to_string_from_display_ensures::<V>(&v, inner) && text@ == "Prime("@
                    + inner@ + ")"@,
        },
{
    match value {
        Value::TombPrime => String::from_str("TOMBPRIME"),
        Value::TombStone => String::from_str("TOMBSTONE"),
        Value::Empty => String::from_str("EMPTY"),
        Value::Present(v) => v.to_string(),
        Value::Prime(v) => {
            let inner = v.to_string();
            let text = String::from_str("Prime(").concat(inner.as_str()).concat(")");
            text
        },
    }
}

} // verus!
