//! The control-byte encoding shared by the matcher and the table.

use vstd::prelude::*;

verus! {

/// A 64-bit digest of a key.
pub type HASH = u64;

/// The upper 57 bits of a digest, which select the group where probing starts.
pub type H1 = u64;

/// The lower 7 bits of a digest, stored as the tag of an occupied slot.
pub type H2 = u8;

/// The control bytes of one group.
pub type Metadata = [H2; 8];

/// Bits of a digest that make up `H1`.
pub const MASK_H1: HASH = 0xFFFF_FFFF_FFFF_FF80;

/// Bits of a digest that make up `H2`.
pub const MASK_H2: HASH = 0x7F;

/// The bit of a control byte that says the slot is not in use.
pub const MASK_EXISTS: H2 = 0b1000_0000;

/// The bits of a control byte that hold the tag.
pub const MASK_DATA: H2 = 0b0111_1111;

/// Control byte of a slot that was never written.
pub const EMPTY: H2 = 0b1000_0000;

/// Control byte reserved for a removed slot. No operation writes it.
pub const DELETED: H2 = 0b1111_1110;

/// The keys and values of one group, lane by lane.
#[derive(Debug, Clone)]
pub struct Group<K, V> {
    pub keys: [Option<K>; 8],
    pub values: [Option<V>; 8],
}

} // verus!
