//! Slot encoding: what a key cell and a value cell of a table can hold.
//!
//! A key cell is empty, sealed (a tombstone) or carries a key. A value cell
//! is empty, a tombstone or carries a value, and may be primed: a primed
//! value is frozen, and every later write goes to the successor table.

use vstd::prelude::*;

verus! {

/// A type whose executable comparison decides whether two values are the same value.
pub trait Identity: Copy {
    fn same(&self, other: &Self) -> (b: bool)
        ensures
            b == (*self == *other),
    ;
}

/// A key type: identity together with a 64-bit hash that is a function of the key alone.
pub trait StableHash: Identity {
    spec fn hash_spec(&self) -> u64;

    fn stable_hash(&self) -> (h: u64)
        ensures
            h == self.hash_spec(),
    ;
}

/// How `put_if_match` decides whether the value it finds may be overwritten.
#[derive(Clone, Copy, Debug, PartialEq, Eq, Structural)]
pub enum MatchingTypes {
    /// Overwrite whatever is there.
    MatchAll,
    /// Overwrite only a present value.
    MatchAllNotTombStone,
    /// Overwrite only a value that matches the expected one.
    MatchValue,
    /// Forwarding during migration: write only where nothing was ever written.
    FromCopySlot,
}

/// The kinds of key cell.
#[derive(Clone, Copy, Debug, PartialEq, Eq, Structural)]
pub enum KeyTypes {
    Key,
    KeyTombStone,
    KeyEmpty,
}

/// The kinds of value cell. A primed cell is of the kind of its plain form.
#[derive(Clone, Copy, Debug, PartialEq, Eq, Structural)]
pub enum ValueTypes {
    Value,
    ValueTombStone,
    ValueEmpty,
}

/// A key cell.
#[derive(Clone, Copy, Debug)]
pub enum Key<T> {
    /// Never occupied.
    Empty,
    /// Sealed by migration: no key may be inserted here any more.
    TombStone,
    /// Carries a key.
    Present(T),
}

/// A value cell.
#[derive(Clone, Copy, Debug)]
pub enum Value<T> {
    /// No value was ever set.
    Empty,
    /// Logically deleted.
    TombStone,
    /// The primed tombstone: the slot is handled, look in the successor table.
    TombPrime,
    /// Carries a value.
    Present(T),
    /// Carries a value that is frozen for migration.
    Prime(T),
}

impl<T> Key<T> {
    /// A cell that carries `k`.
    pub fn new(k: T) -> (key: Key<T>)
        ensures
            key == Key::Present(k),
    {
        Key::Present(k)
    }

    /// A cell that was never occupied.
    pub fn new_empty() -> (key: Key<T>)
        ensures
            key == Key::<T>::Empty,
    {
        Key::Empty
    }

    /// A sealed cell.
    pub fn new_tombstone() -> (key: Key<T>)
        ensures
            key == Key::<T>::TombStone,
    {
        Key::TombStone
    }

    /// Whether the cell is empty.
    #[verifier::when_used_as_spec(spec_is_empty)]
    pub fn is_empty(&self) -> (b: bool)
        ensures
            b == (*self is Empty),
    {
        match self {
            Key::Empty => true,
            _ => false,
        }
    }

    /// Whether the cell is empty.
    pub open spec fn spec_is_empty(&self) -> bool {
        *self is Empty
    }

    /// Whether the cell is sealed.
    #[verifier::when_used_as_spec(spec_is_tombstone)]
    pub fn is_tombstone(&self) -> (b: bool)
        ensures
            b == (*self is TombStone),
    {
        match self {
            Key::TombStone => true,
            _ => false,
        }
    }

    /// Whether the cell holds a tombstone.
    pub open spec fn spec_is_tombstone(&self) -> bool {
        *self is TombStone
    }

    /// Whether the cell carries a key.
    #[verifier::when_used_as_spec(spec_is_present)]
    pub fn is_present(&self) -> (b: bool)
        ensures
            b == (*self is Present),
    {
        match self {
            Key::Present(_) => true,
            _ => false,
        }
    }

    /// Whether the cell carries a key.
    pub open spec fn spec_is_present(&self) -> bool {
        *self is Present
    }

    /// The kind of the cell.
    pub open spec fn spec_keytype(&self) -> KeyTypes {
        match *self {
            Key::Empty => KeyTypes::KeyEmpty,
            Key::TombStone => KeyTypes::KeyTombStone,
            Key::Present(_) => KeyTypes::Key,
        }
    }

    /// The kind of the cell.
    #[verifier::when_used_as_spec(spec_keytype)]
    pub fn keytype(&self) -> (t: KeyTypes)
        ensures
            t == self.spec_keytype(),
    {
        match self {
            Key::Empty => KeyTypes::KeyEmpty,
            Key::TombStone => KeyTypes::KeyTombStone,
            Key::Present(_) => KeyTypes::Key,
        }
    }

    /// The key that the cell carries.
    pub fn get_key(&self) -> (k: &T)
        requires
            *self is Present,
        ensures
            *self == Key::Present(*k),
    {
        match self {
            Key::Present(k) => k,
            _ => vstd::pervasive::unreached(),
        }
    }
}

impl<T: Identity> PartialEq for Key<T> {
    fn eq(&self, other: &Key<T>) -> (b: bool) {
        match (self, other) {
            (Key::Empty, Key::Empty) => true,
            (Key::TombStone, Key::TombStone) => true,
            (Key::Present(a), Key::Present(b)) => a.same(b),
            _ => false,
        }
    }
}

impl<T: Identity> vstd::std_specs::cmp::PartialEqSpecImpl for Key<T> {
    open spec fn obeys_eq_spec() -> bool {
        true
    }

    open spec fn eq_spec(&self, other: &Key<T>) -> bool {
        *self == *other
    }
}

impl<T> Value<T> {
    /// A cell that carries `v`.
    pub fn new(v: T) -> (value: Value<T>)
        ensures
            value == Value::Present(v),
    {
        Value::Present(v)
    }

    /// A cell in which no value was ever set.
    pub fn new_empty() -> (value: Value<T>)
        ensures
            value == Value::<T>::Empty,
    {
        Value::Empty
    }

    /// A cell whose value is deleted.
    pub fn new_tombstone() -> (value: Value<T>)
        ensures
            value == Value::<T>::TombStone,
    {
        Value::TombStone
    }

    /// The primed tombstone.
    pub fn new_tombprime() -> (value: Value<T>)
        ensures
            value == Value::<T>::TombPrime,
    {
        Value::TombPrime
    }

    /// A cell that carries `v`, frozen.
    pub fn new_prime(v: T) -> (value: Value<T>)
        ensures
            value == Value::Prime(v),
    {
        Value::Prime(v)
    }

    /// Whether the cell is empty.
    #[verifier::when_used_as_spec(spec_is_empty)]
    pub fn is_empty(&self) -> (b: bool)
        ensures
            b == (*self is Empty),
    {
        match self {
            Value::Empty => true,
            _ => false,
        }
    }

    /// Whether the cell is empty.
    pub open spec fn spec_is_empty(&self) -> bool {
        *self is Empty
    }

    /// Whether the cell holds a tombstone, primed or not.
    #[verifier::when_used_as_spec(spec_is_tombstone)]
    pub fn is_tombstone(&self) -> (b: bool)
        ensures
            b == (*self is TombStone || *self is TombPrime),
    {
        match self {
            Value::TombStone => true,
            Value::TombPrime => true,
            _ => false,
        }
    }

    /// Whether the cell holds a tombstone.
    pub open spec fn spec_is_tombstone(&self) -> bool {
        *self is TombStone || *self is TombPrime
    }

    /// Whether the cell is primed.
    #[verifier::when_used_as_spec(spec_is_prime)]
    pub fn is_prime(&self) -> (b: bool)
        ensures
            b == (*self is TombPrime || *self is Prime),
    {
        match self {
            Value::TombPrime => true,
            Value::Prime(_) => true,
            _ => false,
        }
    }

    /// Whether the cell is primed.
    pub open spec fn spec_is_prime(&self) -> bool {
        *self is TombPrime || *self is Prime
    }

    /// Whether the cell holds the primed tombstone.
    #[verifier::when_used_as_spec(spec_is_tombprime)]
    pub fn is_tombprime(&self) -> (b: bool)
        ensures
            b == (*self is TombPrime),
    {
        self.is_prime() && self.is_tombstone()
    }

    /// Whether the cell holds the primed tombstone.
    pub open spec fn spec_is_tombprime(&self) -> bool {
        *self is TombPrime
    }

    /// Whether the cell carries a value that is not frozen.
    #[verifier::when_used_as_spec(spec_is_live)]
    pub fn is_live(&self) -> (b: bool)
        ensures
            b == (*self is Present),
    {
        match self {
            Value::Present(_) => true,
            _ => false,
        }
    }

    /// Whether the cell carries a value that is not frozen.
    pub open spec fn spec_is_live(&self) -> bool {
        *self is Present
    }

    /// The kind of the cell.
    pub open spec fn spec_valuetype(&self) -> ValueTypes {
        match *self {
            Value::Empty => ValueTypes::ValueEmpty,
            Value::TombStone => ValueTypes::ValueTombStone,
            Value::TombPrime => ValueTypes::ValueTombStone,
            Value::Present(_) => ValueTypes::Value,
            Value::Prime(_) => ValueTypes::Value,
        }
    }

    /// The kind of the cell.
    #[verifier::when_used_as_spec(spec_valuetype)]
    pub fn valuetype(&self) -> (t: ValueTypes)
        ensures
            t == self.spec_valuetype(),
    {
        match self {
            Value::Empty => ValueTypes::ValueEmpty,
            Value::TombStone => ValueTypes::ValueTombStone,
            Value::TombPrime => ValueTypes::ValueTombStone,
            Value::Present(_) => ValueTypes::Value,
            Value::Prime(_) => ValueTypes::Value,
        }
    }

    /// The value that the cell carries, frozen or not.
    pub open spec fn payload(&self) -> Option<T> {
        match *self {
            Value::Present(v) => Some(v),
            Value::Prime(v) => Some(v),
            _ => None,
        }
    }

    /// The value a reader sees in a cell that is not frozen: present, or absent.
    pub open spec fn live(&self) -> Option<T> {
        match *self {
            Value::Present(v) => Some(v),
            _ => None,
        }
    }

    /// The value that the cell carries, frozen or not, if it carries one.
    pub fn get_value(&self) -> (v: Option<&T>)
        ensures
            match v {
                Some(r) => self.payload() == Some(*r),
                None => self.payload() is None,
            },
    {
        match self {
            Value::Present(v) => Some(v),
            Value::Prime(v) => Some(v),
            _ => None,
        }
    }
}

impl<T: Copy> Value<T> {
    /// The primed form of a cell that is not primed. An empty cell has no primed form of its
    /// own: it freezes to the primed tombstone.
    pub open spec fn primed(&self) -> Value<T> {
        match *self {
            Value::Present(v) => Value::Prime(v),
            Value::Prime(v) => Value::Prime(v),
            _ => Value::TombPrime,
        }
    }

    /// The plain form of a primed cell.
    pub open spec fn unprimed(&self) -> Value<T> {
        match *self {
            Value::Prime(v) => Value::Present(v),
            Value::TombPrime => Value::TombStone,
            other => other,
        }
    }

    /// The value that a reader sees in the cell.
    pub fn to_live(&self) -> (seen: Option<T>)
        ensures
            seen == self.live(),
    {
        match self {
            Value::Present(v) => Some(*v),
            _ => None,
        }
    }

    /// The primed form of the cell.
    pub fn get_prime(&self) -> (p: Value<T>)
        requires
            !self.is_prime(),
        ensures
            p == self.primed(),
            p.is_prime(),
    {
        match self {
            Value::Present(v) => Value::Prime(*v),
            _ => Value::TombPrime,
        }
    }

    /// The plain form of the primed cell.
    pub fn get_unprime(&self) -> (u: Value<T>)
        requires
            self.is_prime(),
        ensures
            u == self.unprimed(),
            !u.is_prime(),
            !u.is_empty(),
    {
        match self {
            Value::Prime(v) => Value::Present(*v),
            _ => Value::TombStone,
        }
    }
}

impl<T: Identity> PartialEq for Value<T> {
    fn eq(&self, other: &Value<T>) -> (b: bool) {
        match (self, other) {
            (Value::Empty, Value::Empty) => true,
            (Value::TombStone, Value::TombStone) => true,
            (Value::TombPrime, Value::TombPrime) => true,
            (Value::Present(a), Value::Present(b)) => a.same(b),
            (Value::Prime(a), Value::Prime(b)) => a.same(b),
            _ => false,
        }
    }
}

impl<T: Identity> vstd::std_specs::cmp::PartialEqSpecImpl for Value<T> {
    open spec fn obeys_eq_spec() -> bool {
        true
    }

    open spec fn eq_spec(&self, other: &Value<T>) -> bool {
        *self == *other
    }
}

impl Identity for u64 {
    fn same(&self, other: &Self) -> (b: bool) {
        *self == *other
    }
}

impl Identity for i64 {
    fn same(&self, other: &Self) -> (b: bool) {
        *self == *other
    }
}

/// Whether a write under the policy `matchingtype`, with `expval` as the expected value,
/// may overwrite the value `found`.
///
/// An expected value that is empty or a tombstone stands for "absent" and matches a cell
/// without a value, whichever of the two it holds. A forward during migration writes only
/// where nothing was ever written.
pub open spec fn permits<T>(matchingtype: MatchingTypes, expval: Option<Value<T>>, found: Value<T>) -> bool {
    match matchingtype {
        MatchingTypes::MatchAll => true,
        MatchingTypes::MatchAllNotTombStone => found is Present,
        MatchingTypes::MatchValue => match expval {
            Some(Value::Present(e)) => found == Value::Present(e),
            Some(_) => !(found is Present),
            None => false,
        },
        MatchingTypes::FromCopySlot => found is Empty,
    }
}

/// Decides whether a write may overwrite the value `found`.
pub fn check_match<T: Identity>(matchingtype: MatchingTypes, expval: &Option<Value<T>>, found: &Value<T>) -> (ok: bool)
    requires
        !found.is_prime(),
        expval is Some ==> !expval->Some_0.is_prime(),
    ensures
        ok == permits(matchingtype, *expval, *found),
{
    match matchingtype {
        MatchingTypes::MatchAll => true,
        MatchingTypes::MatchAllNotTombStone => found.is_live(),
        MatchingTypes::MatchValue => match expval {
            Some(expected) => {
                if expected.is_live() {
                    *found == *expected
                } else {
                    !found.is_live()
                }
            },
            None => false,
        },
        MatchingTypes::FromCopySlot => found.is_empty(),
    }
}

/// Whether the stored key `k`, cached with the hash `hashk`, is the key `key`, whose hash is
/// `hashkey`: the hashes are compared first, and a cached hash of zero counts as unknown.
pub fn fast_keyeq<T: Identity>(k: &Key<T>, hashk: u64, key: &Key<T>, hashkey: u64) -> (eq: bool)
    ensures
        eq == ((hashk == 0 || hashk == hashkey) && !k.is_tombstone() && *k == *key),
{
    (hashk == 0 || hashk == hashkey) && !k.is_tombstone() && *k == *key
}

} // verus!
