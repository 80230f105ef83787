//! A fixed-capacity hash table with open addressing over groups of eight
//! slots. Each slot has a control byte that records whether the slot is in
//! use and, if so, a seven-bit tag cut from the key's hash.
//!
//! - `commons`: the control-byte encoding and the storage of one group.
//! - `key`: what a key type provides, with keys of type `u64` and `String`.
//! - `layout`: the model of a table and the meaning of lookup and insertion.
//! - `lemmas`: facts about the model that the operations are proved from.
//! - `laws`: what holds of every table.
//! - `simdmap`: the table itself.

pub mod commons;
pub mod key;
pub mod layout;
pub mod laws;
pub mod lemmas;
pub mod simdmap;
