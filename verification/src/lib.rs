//! A hash map in the style of Cliff Click's non-blocking table: open
//! addressing over a chain of tables, with a per-slot state machine that
//! migrates entries from a table to its successor one slot at a time.
//!
//! The map is a chain of tables. Every operation starts at the root table
//! and walks along the chain for its key. A table that is full for a key, or
//! from which a migration is under way, sends the walk on to its successor;
//! on its way the walk moves on the slot of its key, and a write also pays
//! for a chunk of the migration out of the root. Once every slot of the root
//! is moved on, the root moves on to its successor.
//!
//! All that changes the map is a handful of transitions, each of one cell or
//! one counter, as one compare-and-swap would make it. The operations are
//! written over these transitions; here they run one at a time.
//!
//! - `slot`, `hashing`: the cells of a slot, and the hash that places a key.
//! - `table`, `states`, `steps`: one table, the states of its slots, and its
//!   transitions.
//! - `chain`, `frames`: what a chain of tables holds for a key, and what a
//!   transition leaves of it.
//! - `map`, `transitions`: the map, its invariant and its transitions.
//! - `put`, `get`, `migrate`: the walks.
//! - `api`: the operations on entries.
//! - `policy`, `clock`: how large tables are made, and the time that this
//!   takes into account.
//! - `laws`, `interference`: what holds over sequences of operations, and of
//!   what a walk knows while others make their transitions.
//! - `show`: cells as text.

pub mod api;
pub mod chain;
pub mod clock;
pub mod count;
pub mod frames;
pub mod get;
pub mod hashing;
pub mod interference;
pub mod laws;
pub mod map;
pub mod migrate;
pub mod policy;
pub mod put;
pub mod show;
pub mod slot;
pub mod states;
pub mod steps;
pub mod table;
pub mod transitions;
