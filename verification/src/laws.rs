//! What holds of every table, whatever was inserted into it.

use vstd::prelude::*;

use crate::commons::DELETED;
use crate::commons::EMPTY;
use crate::key::Key;
use crate::layout::lemma_probe_group;
use crate::layout::lemma_probe_step;
use crate::layout::probe_step;
use crate::layout::Layout;

verus! {

impl<K: Key, V> Layout<K, V> {
    /// The table after the entries of `entries` are inserted one after the
    /// other, the first one first.
    pub open spec fn after_inserts(self, entries: Seq<(K, V)>) -> Self
        decreases entries.len(),
    {
        if entries.len() == 0 {
            self
        } else {
            self.after_inserts(entries.drop_last()).inserted(entries.last().0, entries.last().1)
        }
    }

    /// Every control byte is either the mark of a free slot or a tag of
    /// seven bits: the mark of a removed slot never occurs.
    pub proof fn control_bytes_are_free_marks_or_tags(self, g: int, j: int)
        requires
            self.wf(),
            self.in_table(g, j),
        ensures
            self.occupied(g, j) <==> self.byte(g, j) != EMPTY,
            self.occupied(g, j) <==> self.byte(g, j) < 128,
            self.byte(g, j) != DELETED,
    {
        assert(self.byte(g, j) == if self.occupied(g, j) {
            Self::tag_of(self.key_at(g, j))
        } else {
            EMPTY
        });
    }

    /// Insertion never frees a slot and never moves a key: every occupied
    /// slot stays occupied, with the key it had.
    pub proof fn insert_keeps_entries_in_place(self, k: K, v: V, g: int, j: int)
        requires
            self.wf(),
            self.in_table(g, j),
            self.occupied(g, j),
        ensures
            self.inserted(k, v).occupied(g, j),
            self.inserted(k, v).slots[g][j].unwrap().0 == self.slots[g][j].unwrap().0,
            self.inserted(k, v).byte(g, j) == self.byte(g, j),
            self.key_at(g, j) != k@ ==> self.inserted(k, v).slots[g][j] == self.slots[g][j],
    {
        self.lemma_inserted_slot(k, v);
        if self.contains(k@) {
            let p = self.locate(k@);
            self.lemma_with_value_slots(p.0, p.1, v);
        } else if self.has_room() {
            let p = self.landing(self.start_of(k@));
            self.lemma_with_entry_slots(p.0, p.1, k, v);
        }
    }

    /// An entry inserted into a table that has room is found under its key
    /// right afterwards.
    pub proof fn round_trip(self, k: K, v: V)
        requires
            self.wf(),
            self.has_room(),
        ensures
            self.inserted(k, v).wf(),
            self.inserted(k, v).lookup(k@) == Some(v),
    {
        self.lemma_inserted_slot(k, v);
        self.lemma_inserted_lookup(k, v);
    }

    /// Inserting a key that the table already holds replaces its value and
    /// nothing else: the control bytes stay as they are, every slot keeps its
    /// key, the key stays in its slot, every other slot keeps its value, and
    /// the key is then found with the new value.
    pub proof fn update_in_place(self, k: K, v: V)
        requires
            self.wf(),
            self.contains(k@),
        ensures
            self.inserted(k, v).wf(),
            self.inserted(k, v).control == self.control,
            self.inserted(k, v).locate(k@) == self.locate(k@),
            self.inserted(k, v).lookup(k@) == Some(v),
            forall|g: int, j: int|
                self.in_table(g, j) ==> {
                    &&& #[trigger] self.inserted(k, v).occupied(g, j) == self.occupied(g, j)
                    &&& self.occupied(g, j) ==> self.inserted(k, v).slots[g][j].unwrap().0
                        == self.slots[g][j].unwrap().0
                    &&& (g, j) != self.locate(k@) ==> self.inserted(k, v).slots[g][j]
                        == self.slots[g][j]
                },
    {
        let p = self.locate(k@);
        self.lemma_inserted_slot(k, v);
        self.lemma_inserted_lookup(k, v);
        self.lemma_with_value_slots(p.0, p.1, v);
        self.inserted(k, v).lemma_locate(p.0, p.1, k@);
    }

    /// Inserting one key does not make another key appear: a key that the
    /// table lacks is still missing after an entry with a different key is
    /// inserted, whether or not the two keys have the same tag.
    pub proof fn miss_survives_insert(self, k: K, v: V, other: K::V)
        requires
            self.wf(),
            self.lookup(other) is None,
            other != k@,
        ensures
            self.inserted(k, v).lookup(other) is None,
    {
        self.lemma_inserted_lookup(k, v);
    }

    /// A key that was never inserted is not found: after any run of
    /// insertions into a table made with nothing in it, the lookup of a key
    /// that is not among the inserted ones finds nothing.
    pub proof fn miss_after_inserts(n: nat, entries: Seq<(K, V)>, other: K::V)
        requires
            n >= 1,
            forall|i: int| 0 <= i < entries.len() ==> (#[trigger] entries[i]).0@ != other,
        ensures
            Self::vacant(n).after_inserts(entries).wf(),
            Self::vacant(n).after_inserts(entries).lookup(other) is None,
        decreases entries.len(),
    {
        if entries.len() == 0 {
            Self::lemma_vacant(n);
            assert(!Self::vacant(n).as_map().contains_key(other));
        } else {
            let before = entries.drop_last();
            assert forall|i: int| 0 <= i < before.len() implies (#[trigger] before[i]).0@
                != other by {
                assert(before[i] == entries[i]);
            }
            Self::miss_after_inserts(n, before, other);
            let t = Self::vacant(n).after_inserts(before);
            t.lemma_inserted_slot(entries.last().0, entries.last().1);
            t.miss_survives_insert(entries.last().0, entries.last().1, other);
        }
    }

    /// Two different keys inserted one after the other, each into a table
    /// with room, are both found afterwards, each with its own value. This
    /// holds whatever the keys' tags and start groups are, equal tags
    /// included.
    pub proof fn colliding_keys_coexist(self, k1: K, v1: V, k2: K, v2: V)
        requires
            self.wf(),
            k1@ != k2@,
            self.has_room(),
            self.inserted(k1, v1).has_room(),
        ensures
            self.inserted(k1, v1).inserted(k2, v2).lookup(k1@) == Some(v1),
            self.inserted(k1, v1).inserted(k2, v2).lookup(k2@) == Some(v2),
    {
        let t1 = self.inserted(k1, v1);
        self.round_trip(k1, v1);
        t1.round_trip(k2, v2);
        t1.lemma_inserted_lookup(k2, v2);
    }

    /// A key stored in a group before its start group is found: the probe
    /// for it passes the groups from the start group to the last one, all of
    /// them full, and wraps round to the first group.
    pub proof fn wrapped_key_is_found(self, g: int, j: int, kv: K::V)
        requires
            self.wf(),
            self.holds(g, j, kv),
            g < self.start_of(kv),
        ensures
            self.lookup(kv) == Some(self.value_at(g, j)),
            forall|g2: int| self.start_of(kv) <= g2 < self.group_count() ==> self.full(g2),
            forall|g2: int| 0 <= g2 < g ==> self.full(g2),
    {
        let n = self.group_count();
        let start = self.start_of(kv);
        self.lemma_locate(g, j, kv);
        self.lemma_start_in_table(kv);
        lemma_probe_step(n, start, g);
        assert(self.occupied(g, j));
        assert(self.packed(start, probe_step(n, start, g)));
        assert forall|g2: int| start <= g2 < n implies self.full(g2) by {
            lemma_probe_group(n, start, g2 - start);
            assert(self.full(self.probe(start, g2 - start)));
        }
        assert forall|g2: int| 0 <= g2 < g implies self.full(g2) by {
            lemma_probe_group(n, start, g2 - start + n);
            assert(self.full(self.probe(start, g2 - start + n)));
        }
    }

    /// A new key whose start group and all groups after it are full is
    /// stored in a group before its start group, and is found there.
    pub proof fn insert_wraps_round(self, k: K, v: V)
        requires
            self.wf(),
            !self.contains(k@),
            self.has_room(),
            forall|g: int| self.start_of(k@) <= g < self.group_count() ==> self.full(g),
        ensures
            0 <= self.landing(self.start_of(k@)).0 < self.start_of(k@),
            self.inserted(k, v).holds(
                self.landing(self.start_of(k@)).0,
                self.landing(self.start_of(k@)).1,
                k@,
            ),
            self.inserted(k, v).lookup(k@) == Some(v),
    {
        let start = self.start_of(k@);
        self.lemma_start_in_table(k@);
        self.lemma_landing(start);
        lemma_probe_group(self.group_count(), start, self.first_open_step(start));
        self.lemma_inserted_slot(k, v);
        self.lemma_inserted_lookup(k, v);
    }
}

} // verus!
