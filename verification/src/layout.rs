//! The mathematical model of a table: its control bytes and slots as
//! sequences, the invariant that ties them together, and what lookup and
//! insertion mean on it.

use vstd::arithmetic::div_mod::lemma_fundamental_div_mod_converse;
use vstd::prelude::*;

use crate::commons::EMPTY;
use crate::commons::H2;
use crate::commons::HASH;
use crate::key::Key;

verus! {

/// The starting-group selector and the tag of a digest: its upper 57 bits
/// and its lower 7 bits.
pub open spec fn split_spec(hash: HASH) -> (u64, H2) {
    ((hash / 128) as u64, (hash % 128) as u8)
}

/// The group visited `step` groups after `start`, wrapping round a table of
/// `n` groups.
pub open spec fn probe_group(n: int, start: int, step: int) -> int {
    (start + step) % n
}

/// The number of groups visited before `g` when probing starts at `start`.
pub open spec fn probe_step(n: int, start: int, g: int) -> int {
    (g - start) % n
}

/// Within one pass over the table, wrapping means subtracting the group
/// count at most once.
pub proof fn lemma_probe_group(n: int, start: int, step: int)
    requires
        0 <= start < n,
        0 <= step < n,
    ensures
        0 <= probe_group(n, start, step) < n,
        probe_group(n, start, step) == if start + step < n {
            start + step
        } else {
            start + step - n
        },
        probe_step(n, start, probe_group(n, start, step)) == step,
{
    if start + step < n {
        lemma_fundamental_div_mod_converse(start + step, n, 0, start + step);
        lemma_fundamental_div_mod_converse(step, n, 0, step);
    } else {
        lemma_fundamental_div_mod_converse(start + step, n, 1, start + step - n);
        lemma_fundamental_div_mod_converse(step - n, n, -1, step);
    }
}

/// Every group is reached from every start in fewer steps than there are
/// groups.
pub proof fn lemma_probe_step(n: int, start: int, g: int)
    requires
        0 <= start < n,
        0 <= g < n,
    ensures
        0 <= probe_step(n, start, g) < n,
        probe_step(n, start, g) == if g >= start {
            g - start
        } else {
            g - start + n
        },
        probe_group(n, start, probe_step(n, start, g)) == g,
{
    if g >= start {
        lemma_fundamental_div_mod_converse(g - start, n, 0, g - start);
        lemma_fundamental_div_mod_converse(g, n, 0, g);
    } else {
        lemma_fundamental_div_mod_converse(g - start, n, -1, g - start + n);
        lemma_fundamental_div_mod_converse(g + n, n, 1, g);
    }
}

/// The contents of a table. `control[g][j]` is the control byte of lane `j`
/// of group `g`, and `slots[g][j]` is the entry stored there, if any.
pub struct Layout<K, V> {
    pub control: Seq<Seq<H2>>,
    pub slots: Seq<Seq<Option<(K, V)>>>,
}

impl<K: Key, V> Layout<K, V> {
    /// A table of `n` groups with nothing stored in it.
    pub open spec fn vacant(n: nat) -> Self {
        Layout {
            control: Seq::new(n, |g: int| Seq::new(8, |j: int| EMPTY)),
            slots: Seq::new(n, |g: int| Seq::new(8, |j: int| None)),
        }
    }

    pub open spec fn group_count(self) -> int {
        self.control.len() as int
    }

    /// `(g, j)` names a slot of the table.
    pub open spec fn in_table(self, g: int, j: int) -> bool {
        0 <= g < self.group_count() && 0 <= j < 8
    }

    pub open spec fn byte(self, g: int, j: int) -> H2 {
        self.control[g][j]
    }

    pub open spec fn occupied(self, g: int, j: int) -> bool {
        self.slots[g][j] is Some
    }

    /// The view of the key stored in an occupied slot.
    pub open spec fn key_at(self, g: int, j: int) -> K::V {
        self.slots[g][j].unwrap().0@
    }

    pub open spec fn value_at(self, g: int, j: int) -> V {
        self.slots[g][j].unwrap().1
    }

    /// The tag of every key with view `kv`.
    pub open spec fn tag_of(kv: K::V) -> H2 {
        split_spec(K::digest_spec(kv)).1
    }

    /// The group where probing for a key with view `kv` starts.
    pub open spec fn start_of(self, kv: K::V) -> int {
        split_spec(K::digest_spec(kv)).0 as int % self.group_count()
    }

    /// The group visited `step` groups after `start`.
    pub open spec fn probe(self, start: int, step: int) -> int {
        probe_group(self.group_count(), start, step)
    }

    /// Every lane of group `g` is occupied.
    pub open spec fn full(self, g: int) -> bool {
        forall|j: int| 0 <= j < 8 ==> #[trigger] self.occupied(g, j)
    }

    /// The first `steps` groups probed from `start` are all full.
    pub open spec fn packed(self, start: int, steps: int) -> bool {
        forall|i: int| 0 <= i < steps ==> self.full(#[trigger] self.probe(start, i))
    }

    /// There is at least one group, and every group has eight lanes.
    pub open spec fn shaped(self) -> bool {
        &&& self.control.len() >= 1
        &&& self.slots.len() == self.control.len()
        &&& forall|g: int| 0 <= g < self.control.len() ==> (#[trigger] self.control[g]).len() == 8
        &&& forall|g: int| 0 <= g < self.slots.len() ==> (#[trigger] self.slots[g]).len() == 8
    }

    /// The control byte of a slot says whether the slot is occupied and, if
    /// it is, carries the tag of the stored key.
    pub open spec fn bytes_agree(self) -> bool {
        forall|g: int, j: int|
            self.in_table(g, j) ==> #[trigger] self.byte(g, j) == if self.occupied(g, j) {
                Self::tag_of(self.key_at(g, j))
            } else {
                EMPTY
            }
    }

    /// No key is stored twice.
    pub open spec fn keys_distinct(self) -> bool {
        forall|g: int, j: int, g2: int, j2: int|
            self.in_table(g, j) && self.in_table(g2, j2) && #[trigger] self.occupied(g, j)
                && #[trigger] self.occupied(g2, j2) && self.key_at(g, j) == self.key_at(g2, j2)
                ==> g == g2 && j == j2
    }

    /// Every group probed before the one that stores a key is full.
    pub open spec fn keys_reachable(self) -> bool {
        forall|g: int, j: int|
            self.in_table(g, j) && #[trigger] self.occupied(g, j) ==> self.packed(
                self.start_of(self.key_at(g, j)),
                probe_step(self.group_count(), self.start_of(self.key_at(g, j)), g),
            )
    }

    /// The invariant of a table.
    pub open spec fn wf(self) -> bool {
        &&& self.shaped()
        &&& self.bytes_agree()
        &&& self.keys_distinct()
        &&& self.keys_reachable()
    }

    /// Slot `(g, j)` stores a key with view `kv`.
    pub open spec fn holds(self, g: int, j: int, kv: K::V) -> bool {
        self.in_table(g, j) && self.occupied(g, j) && self.key_at(g, j) == kv
    }

    /// No lane of group `g` stores a key with view `kv`.
    pub open spec fn group_lacks(self, g: int, kv: K::V) -> bool {
        forall|j: int| !self.holds(g, j, kv)
    }

    /// None of the first `steps` groups probed from `start` stores a key
    /// with view `kv`.
    pub open spec fn unseen(self, start: int, steps: int, kv: K::V) -> bool {
        forall|i: int| 0 <= i < steps ==> self.group_lacks(#[trigger] self.probe(start, i), kv)
    }

    /// Some slot stores a key with view `kv`.
    pub open spec fn contains(self, kv: K::V) -> bool {
        exists|g: int, j: int| #[trigger] self.holds(g, j, kv)
    }

    /// The slot that stores the key with view `kv`, where there is one.
    pub open spec fn locate(self, kv: K::V) -> (int, int) {
        choose|p: (int, int)| self.holds(p.0, p.1, kv)
    }

    /// The value stored under the key with view `kv`, if any.
    pub open spec fn lookup(self, kv: K::V) -> Option<V> {
        if self.contains(kv) {
            Some(self.value_at(self.locate(kv).0, self.locate(kv).1))
        } else {
            None
        }
    }

    /// The table as a map from key views to values.
    pub open spec fn as_map(self) -> Map<K::V, V> {
        Map::new(|kv: K::V| self.contains(kv), |kv: K::V| self.lookup(kv).unwrap())
    }

    /// Probing from `start`, the group at `step` is the first with a free
    /// lane.
    pub open spec fn opens_at(self, start: int, step: int) -> bool {
        &&& 0 <= step < self.group_count()
        &&& !self.full(self.probe(start, step))
        &&& self.packed(start, step)
    }

    /// Some group has a free lane.
    pub open spec fn has_room(self) -> bool {
        exists|g: int, j: int| self.in_table(g, j) && !#[trigger] self.occupied(g, j)
    }

    /// The number of full groups probed from `start` before one with a free
    /// lane, in a table that has room.
    pub open spec fn first_open_step(self, start: int) -> int {
        choose|step: int| self.opens_at(start, step)
    }

    /// Lane `j` is the lowest free lane of group `g`.
    pub open spec fn lane_opens(self, g: int, j: int) -> bool {
        &&& 0 <= j < 8
        &&& !self.occupied(g, j)
        &&& forall|j2: int| 0 <= j2 < j ==> #[trigger] self.occupied(g, j2)
    }

    /// The lowest free lane of a group that is not full.
    pub open spec fn first_open_lane(self, g: int) -> int {
        choose|j: int| self.lane_opens(g, j)
    }

    /// The slot that a new key probing from `start` is written to, in a
    /// table that has room.
    pub open spec fn landing(self, start: int) -> (int, int) {
        let g = self.probe(start, self.first_open_step(start));
        (g, self.first_open_lane(g))
    }

    /// The table with the value of occupied slot `(g, j)` replaced.
    pub open spec fn with_value(self, g: int, j: int, v: V) -> Self {
        Layout {
            control: self.control,
            slots: self.slots.update(g, self.slots[g].update(j, Some((self.slots[g][j].unwrap().0, v)))),
        }
    }

    /// The table with free slot `(g, j)` filled with `k` and `v`.
    pub open spec fn with_entry(self, g: int, j: int, k: K, v: V) -> Self {
        Layout {
            control: self.control.update(g, self.control[g].update(j, Self::tag_of(k@))),
            slots: self.slots.update(g, self.slots[g].update(j, Some((k, v)))),
        }
    }

    /// The table after `k` and `v` are inserted. A key already stored keeps
    /// its slot and gets the new value. A new key goes to the lowest free
    /// lane of the first group, probing from the key's start, that has one.
    /// A new key leaves a table without room unchanged.
    pub open spec fn inserted(self, k: K, v: V) -> Self {
        if self.contains(k@) {
            self.with_value(self.locate(k@).0, self.locate(k@).1, v)
        } else if self.has_room() {
            let p = self.landing(self.start_of(k@));
            self.with_entry(p.0, p.1, k, v)
        } else {
            self
        }
    }
}

} // verus!
