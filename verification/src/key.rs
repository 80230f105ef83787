//! What the table asks of a key type: a digest and an equality test, both
//! determined by the key's view.

use std::collections::hash_map::DefaultHasher;
use std::hash::Hasher;
use vstd::bytes::spec_u64_to_le_bytes;
use vstd::bytes::u64_to_le_bytes;
use vstd::prelude::*;
use vstd::std_specs::hash::DefaultHasherAdditionalSpecFns;
use vstd::utf8::encode_utf8;

use crate::commons::HASH;

verus! {

/// A type whose values can serve as keys of the table.
///
/// Two keys are the same key exactly when their views are equal, and the
/// digest of a key depends on its view alone. The table relies on both: a key
/// must hash to the same digest at every insert and every lookup.
pub trait Key: View + Sized {
    /// The digest that every key with view `v` has.
    spec fn digest_spec(v: Self::V) -> HASH;

    /// Hashes the key to 64 bits.
    fn digest(&self) -> (h: HASH)
        ensures
            h == Self::digest_spec(self@),
    ;

    /// Tests whether two keys are the same key.
    fn same(&self, other: &Self) -> (r: bool)
        ensures
            r == (self@ == other@),
    ;
}

impl Key for u64 {
    /// The standard hasher's digest of the key's eight bytes, low byte first.
    open spec fn digest_spec(v: u64) -> HASH {
        DefaultHasher::spec_finish(seq![spec_u64_to_le_bytes(v)])
    }

    fn digest(&self) -> (h: HASH) {
        let mut hasher = DefaultHasher::new();
        let bytes = u64_to_le_bytes(*self);
        hasher.write(bytes.as_slice());
        proof {
            assert(hasher@ =~= seq![spec_u64_to_le_bytes(*self)]);
        }
        hasher.finish()
    }

    fn same(&self, other: &Self) -> (r: bool) {
        *self == *other
    }
}

impl Key for String {
    /// The standard hasher's digest of the key's UTF-8 bytes.
    open spec fn digest_spec(v: Seq<char>) -> HASH {
        DefaultHasher::spec_finish(seq![encode_utf8(v)])
    }

    fn digest(&self) -> (h: HASH) {
        let mut hasher = DefaultHasher::new();
        hasher.write(self.as_str().as_bytes());
        proof {
            assert(hasher@ =~= seq![encode_utf8(self@)]);
        }
        hasher.finish()
    }

    fn same(&self, other: &Self) -> (r: bool) {
        *self == *other
    }
}

} // verus!
