//! Facts about the model that the table's operations are proved from.

use vstd::arithmetic::div_mod::lemma_mod_pos_bound;
use vstd::prelude::*;

use crate::commons::EMPTY;
use crate::key::Key;
use crate::layout::lemma_probe_group;
use crate::layout::lemma_probe_step;
use crate::layout::probe_step;
use crate::layout::split_spec;
use crate::layout::Layout;

verus! {

impl<K: Key, V> Layout<K, V> {
    /// A table with nothing stored in it meets the invariant, and holds no
    /// key.
    pub proof fn lemma_vacant(n: nat)
        requires
            n >= 1,
        ensures
            Self::vacant(n).wf(),
            Self::vacant(n).group_count() == n,
            Self::vacant(n).as_map() == Map::<K::V, V>::empty(),
            Self::vacant(n).has_room(),
            forall|g: int, j: int|
                Self::vacant(n).in_table(g, j) ==> !#[trigger] Self::vacant(n).occupied(g, j),
    {
        let t = Self::vacant(n);
        assert forall|g: int, j: int| t.in_table(g, j) implies !#[trigger] t.occupied(g, j)
            && t.byte(g, j) == EMPTY by {}
        assert forall|kv: K::V| !t.contains(kv) by {
            if t.contains(kv) {
                let (g, j) = choose|g: int, j: int| #[trigger] t.holds(g, j, kv);
                assert(!t.occupied(g, j));
            }
        }
        assert(t.as_map() =~= Map::<K::V, V>::empty());
        assert(t.in_table(0, 0) && !t.occupied(0, 0));
    }

    /// Probing starts at a group of the table.
    pub proof fn lemma_start_in_table(self, kv: K::V)
        requires
            self.group_count() >= 1,
        ensures
            0 <= self.start_of(kv) < self.group_count(),
    {
        lemma_mod_pos_bound(split_spec(K::digest_spec(kv)).0 as int, self.group_count());
    }

    /// The slot that `locate` names for a stored key stores that key.
    pub proof fn lemma_locate_holds(self, kv: K::V)
        requires
            self.contains(kv),
        ensures
            self.holds(self.locate(kv).0, self.locate(kv).1, kv),
    {
        let (g, j) = choose|g: int, j: int| #[trigger] self.holds(g, j, kv);
        let q = (g, j);
        assert(self.holds(q.0, q.1, kv));
    }

    /// A key is stored in one slot at most, so the slot where it is seen is
    /// the slot that `locate` names.
    pub proof fn lemma_locate(self, g: int, j: int, kv: K::V)
        requires
            self.keys_distinct(),
            self.holds(g, j, kv),
        ensures
            self.contains(kv),
            self.locate(kv) == (g, j),
            self.lookup(kv) == Some(self.value_at(g, j)),
    {
        self.lemma_locate_holds(kv);
    }

    /// One pass over the groups sees every slot: a key that no group of the
    /// pass holds is not in the table.
    pub proof fn lemma_unseen_is_absent(self, start: int, kv: K::V)
        requires
            self.shaped(),
            0 <= start < self.group_count(),
            self.unseen(start, self.group_count(), kv),
        ensures
            !self.contains(kv),
            self.lookup(kv) is None,
    {
        if self.contains(kv) {
            let (g, j) = choose|g: int, j: int| #[trigger] self.holds(g, j, kv);
            lemma_probe_step(self.group_count(), start, g);
            let s = probe_step(self.group_count(), start, g);
            assert(self.group_lacks(self.probe(start, s), kv));
        }
    }

    /// When one pass over the groups finds all of them full, the table has
    /// no room.
    pub proof fn lemma_packed_is_full(self, start: int)
        requires
            self.shaped(),
            0 <= start < self.group_count(),
            self.packed(start, self.group_count()),
        ensures
            !self.has_room(),
    {
        if self.has_room() {
            let (g, j) = choose|g: int, j: int| self.in_table(g, j) && !#[trigger] self.occupied(g, j);
            lemma_probe_step(self.group_count(), start, g);
            assert(self.full(self.probe(start, probe_step(self.group_count(), start, g))));
        }
    }

    /// A probe for a key that passes `step` full groups without meeting the
    /// key, and then meets a group without the key whose lowest free lane is
    /// `j`, has shown that the key is not stored and where it belongs.
    pub proof fn lemma_lands_at(self, start: int, step: int, j: int, kv: K::V)
        requires
            self.wf(),
            start == self.start_of(kv),
            0 <= step < self.group_count(),
            self.unseen(start, step + 1, kv),
            self.packed(start, step),
            self.lane_opens(self.probe(start, step), j),
        ensures
            !self.contains(kv),
            self.has_room(),
            self.landing(start) == (self.probe(start, step), j),
            self.in_table(self.probe(start, step), j),
            self.packed(start, probe_step(self.group_count(), start, self.probe(start, step))),
    {
        let n = self.group_count();
        self.lemma_start_in_table(kv);
        lemma_probe_group(n, start, step);
        let g = self.probe(start, step);
        if self.contains(kv) {
            let (g2, j2) = choose|g2: int, j2: int| #[trigger] self.holds(g2, j2, kv);
            lemma_probe_step(n, start, g2);
            let s2 = probe_step(n, start, g2);
            if s2 <= step {
                assert(self.group_lacks(self.probe(start, s2), kv));
            } else {
                assert(self.occupied(g2, j2));
                assert(self.packed(start, s2));
                assert(self.full(self.probe(start, step)));
                assert(self.occupied(g, j));
            }
            assert(false);
        }
        assert(!self.occupied(g, j));
        assert(self.opens_at(start, step));
        self.lemma_open_step_unique(start, step);
        self.lemma_open_lane_unique(g, j);
    }

    /// Only one step can be the first that reaches a group with a free lane.
    pub proof fn lemma_open_step_unique(self, start: int, step: int)
        requires
            self.opens_at(start, step),
        ensures
            self.first_open_step(start) == step,
    {
        let s = self.first_open_step(start);
        assert(self.opens_at(start, s));
        if s < step {
            assert(self.full(self.probe(start, s)));
        }
        if step < s {
            assert(self.full(self.probe(start, step)));
        }
    }

    /// Only one lane can be the lowest free lane of a group.
    pub proof fn lemma_open_lane_unique(self, g: int, j: int)
        requires
            self.lane_opens(g, j),
        ensures
            self.first_open_lane(g) == j,
    {
        let l = self.first_open_lane(g);
        assert(self.lane_opens(g, l));
        if l < j {
            assert(self.occupied(g, l));
        }
        if j < l {
            assert(self.occupied(g, j));
        }
    }

    /// Among the first `upto` groups probed from `start`, either all are
    /// full or one is the first with a free lane.
    proof fn lemma_scan_groups(self, start: int, upto: int)
        requires
            0 <= upto <= self.group_count(),
        ensures
            self.packed(start, upto) || exists|step: int|
                0 <= step < upto && #[trigger] self.opens_at(start, step),
        decreases upto,
    {
        if upto > 0 {
            self.lemma_scan_groups(start, upto - 1);
            if self.packed(start, upto - 1) {
                if self.full(self.probe(start, upto - 1)) {
                    assert(self.packed(start, upto));
                } else {
                    assert(self.opens_at(start, upto - 1));
                }
            }
        }
    }

    /// Among the first `upto` lanes of a group, either all are occupied or
    /// one is the lowest free lane.
    proof fn lemma_scan_lanes(self, g: int, upto: int)
        requires
            0 <= upto <= 8,
        ensures
            (forall|j: int| 0 <= j < upto ==> #[trigger] self.occupied(g, j)) || exists|j: int|
                0 <= j < upto && #[trigger] self.lane_opens(g, j),
        decreases upto,
    {
        if upto > 0 {
            self.lemma_scan_lanes(g, upto - 1);
            if forall|j: int| 0 <= j < upto - 1 ==> #[trigger] self.occupied(g, j) {
                if !self.occupied(g, upto - 1) {
                    assert(self.lane_opens(g, upto - 1));
                }
            }
        }
    }

    /// In a table with room, probing from any group reaches a free slot.
    pub proof fn lemma_landing(self, start: int)
        requires
            self.shaped(),
            self.has_room(),
            0 <= start < self.group_count(),
        ensures
            self.opens_at(start, self.first_open_step(start)),
            self.lane_opens(self.landing(start).0, self.landing(start).1),
            self.in_table(self.landing(start).0, self.landing(start).1),
            !self.occupied(self.landing(start).0, self.landing(start).1),
    {
        let n = self.group_count();
        self.lemma_scan_groups(start, n);
        if self.packed(start, n) {
            let (g, j) = choose|g: int, j: int| self.in_table(g, j) && !#[trigger] self.occupied(g, j);
            lemma_probe_step(n, start, g);
            assert(self.full(self.probe(start, probe_step(n, start, g))));
            assert(false);
        }
        let step = self.first_open_step(start);
        assert(self.opens_at(start, step));
        let g = self.probe(start, step);
        lemma_probe_group(n, start, step);
        self.lemma_scan_lanes(g, 8);
        assert(self.lane_opens(g, self.first_open_lane(g)));
    }

    /// Replacing the value of an occupied slot keeps the invariant.
    pub proof fn lemma_with_value_wf(self, g: int, j: int, v: V)
        requires
            self.wf(),
            self.in_table(g, j),
            self.occupied(g, j),
        ensures
            self.with_value(g, j, v).wf(),
            self.with_value(g, j, v).group_count() == self.group_count(),
    {
        let t = self.with_value(g, j, v);
        assert forall|g2: int, j2: int| self.in_table(g2, j2) implies t.occupied(g2, j2)
            == #[trigger] self.occupied(g2, j2) && (self.occupied(g2, j2) ==> t.key_at(g2, j2)
            == self.key_at(g2, j2)) && t.byte(g2, j2) == self.byte(g2, j2) by {}
        assert(t.shaped());
        assert(t.bytes_agree()) by {
            assert forall|g2: int, j2: int| t.in_table(g2, j2) implies #[trigger] t.byte(g2, j2)
                == if t.occupied(g2, j2) {
                Self::tag_of(t.key_at(g2, j2))
            } else {
                EMPTY
            } by {
                assert(self.byte(g2, j2) == t.byte(g2, j2));
                assert(self.occupied(g2, j2) == t.occupied(g2, j2));
            }
        }
        assert(t.keys_distinct()) by {
            assert forall|g2: int, j2: int, g3: int, j3: int|
                t.in_table(g2, j2) && t.in_table(g3, j3) && #[trigger] t.occupied(g2, j2)
                    && #[trigger] t.occupied(g3, j3) && t.key_at(g2, j2) == t.key_at(
                    g3,
                    j3,
                ) implies g2 == g3 && j2 == j3 by {
                assert(self.occupied(g2, j2) && self.occupied(g3, j3));
            }
        }
        assert(t.keys_reachable()) by {
            assert forall|g2: int, j2: int|
                t.in_table(g2, j2) && #[trigger] t.occupied(g2, j2) implies t.packed(
                t.start_of(t.key_at(g2, j2)),
                probe_step(t.group_count(), t.start_of(t.key_at(g2, j2)), g2),
            ) by {
                assert(self.occupied(g2, j2));
                let start = self.start_of(self.key_at(g2, j2));
                let steps = probe_step(self.group_count(), start, g2);
                self.lemma_start_in_table(self.key_at(g2, j2));
                assert(self.packed(start, steps));
                self.lemma_fuller_stays_packed(t, start, steps);
            }
        }
    }

    /// A table that has every entry of this one, and maybe more, keeps full
    /// groups full.
    pub proof fn lemma_fuller_stays_packed(self, more: Self, start: int, steps: int)
        requires
            self.shaped(),
            more.group_count() == self.group_count(),
            0 <= start < self.group_count(),
            0 <= steps <= self.group_count(),
            self.packed(start, steps),
            forall|g: int, j: int|
                self.in_table(g, j) && #[trigger] self.occupied(g, j) ==> more.occupied(g, j),
        ensures
            more.packed(start, steps),
    {
        assert forall|i: int| 0 <= i < steps implies more.full(#[trigger] more.probe(start, i)) by {
            let g = self.probe(start, i);
            lemma_probe_group(self.group_count(), start, i);
            assert(self.full(g));
            assert forall|j: int| 0 <= j < 8 implies #[trigger] more.occupied(g, j) by {
                assert(self.occupied(g, j));
            }
        }
    }

    /// Filling a free slot that the new key's probe reaches over full groups
    /// only, with a key that is not stored yet, keeps the invariant.
    pub proof fn lemma_with_entry_wf(self, g: int, j: int, k: K, v: V)
        requires
            self.wf(),
            self.in_table(g, j),
            !self.occupied(g, j),
            !self.contains(k@),
            self.packed(self.start_of(k@), probe_step(self.group_count(), self.start_of(k@), g)),
        ensures
            self.with_entry(g, j, k, v).wf(),
            self.with_entry(g, j, k, v).group_count() == self.group_count(),
            self.with_entry(g, j, k, v).holds(g, j, k@),
    {
        let t = self.with_entry(g, j, k, v);
        let n = self.group_count();
        assert(t.shaped());
        assert forall|g2: int, j2: int| self.in_table(g2, j2) && !(g2 == g && j2 == j) implies {
            &&& #[trigger] t.occupied(g2, j2) == self.occupied(g2, j2)
            &&& t.slots[g2][j2] == self.slots[g2][j2]
            &&& t.byte(g2, j2) == self.byte(g2, j2)
        } by {}
        assert(t.occupied(g, j) && t.key_at(g, j) == k@ && t.byte(g, j) == Self::tag_of(k@));
        assert(t.bytes_agree()) by {
            assert forall|g2: int, j2: int| t.in_table(g2, j2) implies #[trigger] t.byte(g2, j2)
                == if t.occupied(g2, j2) {
                Self::tag_of(t.key_at(g2, j2))
            } else {
                EMPTY
            } by {
                if !(g2 == g && j2 == j) {
                    assert(t.occupied(g2, j2) == self.occupied(g2, j2));
                    assert(self.byte(g2, j2) == t.byte(g2, j2));
                }
            }
        }
        assert(t.keys_distinct()) by {
            assert forall|g2: int, j2: int, g3: int, j3: int|
                t.in_table(g2, j2) && t.in_table(g3, j3) && #[trigger] t.occupied(g2, j2)
                    && #[trigger] t.occupied(g3, j3) && t.key_at(g2, j2) == t.key_at(
                    g3,
                    j3,
                ) implies g2 == g3 && j2 == j3 by {
                let new2 = g2 == g && j2 == j;
                let new3 = g3 == g && j3 == j;
                if new2 && !new3 {
                    assert(t.occupied(g3, j3) == self.occupied(g3, j3));
                    assert(self.holds(g3, j3, k@));
                } else if !new2 && new3 {
                    assert(t.occupied(g2, j2) == self.occupied(g2, j2));
                    assert(self.holds(g2, j2, k@));
                } else if !new2 && !new3 {
                    assert(t.occupied(g2, j2) == self.occupied(g2, j2));
                    assert(t.occupied(g3, j3) == self.occupied(g3, j3));
                }
            }
        }
        assert(t.keys_reachable()) by {
            assert forall|g2: int, j2: int|
                t.in_table(g2, j2) && #[trigger] t.occupied(g2, j2) implies t.packed(
                t.start_of(t.key_at(g2, j2)),
                probe_step(t.group_count(), t.start_of(t.key_at(g2, j2)), g2),
            ) by {
                let kv = t.key_at(g2, j2);
                let start = self.start_of(kv);
                self.lemma_start_in_table(kv);
                lemma_probe_step(n, start, g2);
                let steps = probe_step(n, start, g2);
                if !(g2 == g && j2 == j) {
                    assert(t.occupied(g2, j2) == self.occupied(g2, j2));
                    assert(self.occupied(g2, j2));
                }
                assert(self.packed(start, steps));
                self.lemma_fuller_stays_packed(t, start, steps);
            }
        }
    }

    /// Replacing a value changes the slots nowhere else.
    pub proof fn lemma_with_value_slots(self, g: int, j: int, v: V)
        requires
            self.shaped(),
            self.in_table(g, j),
        ensures
            self.with_value(g, j, v).control == self.control,
            self.with_value(g, j, v).slots[g][j] == Some((self.slots[g][j].unwrap().0, v)),
            forall|g2: int, j2: int|
                self.in_table(g2, j2) && !(g2 == g && j2 == j) ==> #[trigger] self.with_value(
                    g,
                    j,
                    v,
                ).slots[g2][j2] == self.slots[g2][j2],
    {
    }

    /// Filling a slot changes the slots and the control bytes nowhere else.
    pub proof fn lemma_with_entry_slots(self, g: int, j: int, k: K, v: V)
        requires
            self.shaped(),
            self.in_table(g, j),
        ensures
            self.with_entry(g, j, k, v).slots[g][j] == Some((k, v)),
            self.with_entry(g, j, k, v).control[g][j] == Self::tag_of(k@),
            forall|g2: int, j2: int|
                self.in_table(g2, j2) && !(g2 == g && j2 == j) ==> #[trigger] self.with_entry(
                    g,
                    j,
                    k,
                    v,
                ).slots[g2][j2] == self.slots[g2][j2],
            forall|g2: int, j2: int|
                self.in_table(g2, j2) && !(g2 == g && j2 == j) ==> #[trigger] self.with_entry(
                    g,
                    j,
                    k,
                    v,
                ).control[g2][j2] == self.control[g2][j2],
    {
    }

    /// What insertion does to the slot of the inserted key: the slot that
    /// held the key if one did, the landing slot if the table has room, and
    /// no slot otherwise.
    pub proof fn lemma_inserted_slot(self, k: K, v: V)
        requires
            self.wf(),
        ensures
            self.inserted(k, v).wf(),
            self.inserted(k, v).group_count() == self.group_count(),
            self.contains(k@) ==> self.inserted(k, v).holds(
                self.locate(k@).0,
                self.locate(k@).1,
                k@,
            ) && self.holds(self.locate(k@).0, self.locate(k@).1, k@),
            !self.contains(k@) && self.has_room() ==> {
                let p = self.landing(self.start_of(k@));
                &&& self.in_table(p.0, p.1)
                &&& !self.occupied(p.0, p.1)
                &&& self.inserted(k, v).holds(p.0, p.1, k@)
            },
    {
        if self.contains(k@) {
            let p = self.locate(k@);
            self.lemma_locate_holds(k@);
            self.lemma_with_value_wf(p.0, p.1, v);
            self.lemma_with_value_slots(p.0, p.1, v);
        } else if self.has_room() {
            let start = self.start_of(k@);
            self.lemma_start_in_table(k@);
            self.lemma_landing(start);
            let step = self.first_open_step(start);
            let p = self.landing(start);
            lemma_probe_group(self.group_count(), start, step);
            self.lemma_with_entry_wf(p.0, p.1, k, v);
        }
    }

    /// What insertion does to lookups: the inserted key is found with the
    /// new value unless the key was new and the table had no room, and every
    /// other key is found, or missed, as before.
    pub proof fn lemma_inserted_lookup(self, k: K, v: V)
        requires
            self.wf(),
        ensures
            self.contains(k@) || self.has_room() ==> self.inserted(k, v).lookup(k@) == Some(v),
            !self.contains(k@) && !self.has_room() ==> self.inserted(k, v) == self,
            forall|kv: K::V| kv != k@ ==> #[trigger] self.inserted(k, v).lookup(kv) == self.lookup(kv),
    {
        let t = self.inserted(k, v);
        self.lemma_inserted_slot(k, v);
        if self.contains(k@) || self.has_room() {
            let p = if self.contains(k@) {
                self.locate(k@)
            } else {
                self.landing(self.start_of(k@))
            };
            if self.contains(k@) {
                self.lemma_with_value_slots(p.0, p.1, v);
            } else {
                self.lemma_with_entry_slots(p.0, p.1, k, v);
            }
            t.lemma_locate(p.0, p.1, k@);
            assert forall|kv: K::V| kv != k@ implies #[trigger] t.lookup(kv) == self.lookup(kv) by {
                if self.contains(kv) {
                    let (g, j) = choose|g: int, j: int| #[trigger] self.holds(g, j, kv);
                    self.lemma_locate(g, j, kv);
                    assert(t.slots[g][j] == self.slots[g][j]);
                    assert(t.holds(g, j, kv));
                    t.lemma_locate(g, j, kv);
                } else if t.contains(kv) {
                    let (g, j) = choose|g: int, j: int| #[trigger] t.holds(g, j, kv);
                    assert(t.slots[g][j] == self.slots[g][j]);
                    assert(self.holds(g, j, kv));
                }
            }
        }
    }

    /// Insertion on the table seen as a map: the entry is added, or
    /// replaces the one with the same key, unless the key is new and the
    /// table has no room.
    pub proof fn lemma_inserted_map(self, k: K, v: V)
        requires
            self.wf(),
        ensures
            self.inserted(k, v).as_map() == if self.contains(k@) || self.has_room() {
                self.as_map().insert(k@, v)
            } else {
                self.as_map()
            },
    {
        let t = self.inserted(k, v);
        self.lemma_inserted_lookup(k, v);
        if self.contains(k@) || self.has_room() {
            assert forall|kv: K::V| t.contains(kv) == self.as_map().insert(k@, v).contains_key(
                kv,
            ) by {
                if kv != k@ {
                    assert(t.lookup(kv) == self.lookup(kv));
                }
            }
            assert forall|kv: K::V| t.contains(kv) implies t.lookup(kv).unwrap()
                == self.as_map().insert(k@, v)[kv] by {
                if kv != k@ {
                    assert(t.lookup(kv) == self.lookup(kv));
                }
            }
            assert(t.as_map() =~= self.as_map().insert(k@, v));
        }
    }
}

} // verus!
