//! The table: storage, the group matcher, and insert and lookup by probing.

use vstd::prelude::*;

use crate::commons::Group;
use crate::commons::Metadata;
use crate::commons::EMPTY;
use crate::commons::H1;
use crate::commons::H2;
use crate::commons::HASH;
use crate::commons::MASK_EXISTS;
use crate::commons::MASK_H1;
use crate::commons::MASK_H2;
use crate::key::Key;
use crate::layout::lemma_probe_group;
use crate::layout::probe_step;
use crate::layout::split_spec;
use crate::layout::Layout;

verus! {

/// A hash table of fixed size whose slots are probed a group of eight at a
/// time.
pub struct SimdTable<K: Key, V> {
    ctrl: Vec<Metadata>,
    groups: Vec<Group<K, V>>,
    group_count: usize,
    cap: usize,
}

/// The number of groups that a table made for `cap` entries has: `cap / 8`
/// rounded up, and one group at least.
pub open spec fn groups_for(cap: usize) -> nat {
    if cap == 0 {
        1
    } else {
        ((cap + 7) / 8) as nat
    }
}

/// The entry in lane `j` of a group.
pub open spec fn slot_of<K, V>(group: Group<K, V>, j: int) -> Option<(K, V)> {
    match (group.keys@[j], group.values@[j]) {
        (Some(k), Some(v)) => Some((k, v)),
        _ => None,
    }
}

/// The model of the table stored in `ctrl` and `groups`.
pub open spec fn layout_of<K, V>(ctrl: Seq<Metadata>, groups: Seq<Group<K, V>>) -> Layout<K, V> {
    Layout {
        control: Seq::new(ctrl.len(), |g: int| ctrl[g]@),
        slots: Seq::new(groups.len(), |g: int| Seq::new(8, |j: int| slot_of(groups[g], j))),
    }
}

/// Every lane has a key and a value, or neither.
pub open spec fn aligned<K, V>(groups: Seq<Group<K, V>>) -> bool {
    forall|g: int, j: int|
        0 <= g < groups.len() && 0 <= j < 8 ==> ((#[trigger] groups[g].keys@[j]) is Some
            <==> groups[g].values@[j] is Some)
}

/// Control bytes and groups that together make up a table.
pub open spec fn consistent<K: Key, V>(ctrl: Seq<Metadata>, groups: Seq<Group<K, V>>) -> bool {
    &&& groups.len() == ctrl.len()
    &&& aligned(groups)
    &&& layout_of(ctrl, groups).wf()
}

impl<K: Key, V> View for SimdTable<K, V> {
    type V = Map<K::V, V>;

    /// The table as a map from key views to values.
    open spec fn view(&self) -> Map<K::V, V> {
        self.layout().as_map()
    }
}

impl<K: Key, V> SimdTable<K, V> {
    #[verifier::type_invariant]
    spec fn inv(&self) -> bool {
        &&& self.group_count == self.ctrl@.len()
        &&& consistent(self.ctrl@, self.groups@)
    }

    /// The contents of the table.
    pub closed spec fn layout(&self) -> Layout<K, V> {
        layout_of(self.ctrl@, self.groups@)
    }

    /// The number of entries that the table was made for.
    pub closed spec fn capacity(&self) -> usize {
        self.cap
    }

    /// Makes a table for `cap` entries: `cap / 8` groups, rounded up, and one
    /// group at least, with every slot free.
    pub fn new(cap: usize) -> (table: Self)
        ensures
            table.layout() == Layout::<K, V>::vacant(groups_for(cap)),
            table.layout().wf(),
            table@ == Map::<K::V, V>::empty(),
            table.capacity() == cap,
    {
        let rounded: usize = cap / 8 + if cap % 8 == 0 {
            0
        } else {
            1
        };
        let group_count: usize = if rounded == 0 {
            1
        } else {
            rounded
        };
        let mut ctrl: Vec<Metadata> = Vec::new();
        let mut groups: Vec<Group<K, V>> = Vec::new();
        let mut g: usize = 0;
        while g < group_count
            invariant
                g <= group_count,
                ctrl@.len() == g,
                groups@.len() == g,
                forall|x: int, j: int| 0 <= x < g && 0 <= j < 8 ==> (#[trigger] ctrl@[x]@[j]) == EMPTY,
                forall|x: int, j: int|
                    0 <= x < g && 0 <= j < 8 ==> (#[trigger] groups@[x].keys@[j]) is None
                        && groups@[x].values@[j] is None,
            decreases group_count - g,
        {
            ctrl.push([EMPTY;8]);
            groups.push(
                Group {
                    keys: [None, None, None, None, None, None, None, None],
                    values: [None, None, None, None, None, None, None, None],
                },
            );
            g += 1;
        }
        proof {
            Layout::<K, V>::lemma_vacant(group_count as nat);
            let built = layout_of(ctrl@, groups@);
            let vacant = Layout::<K, V>::vacant(group_count as nat);
            assert forall|x: int| 0 <= x < group_count implies #[trigger] built.control[x]
                == vacant.control[x] by {
                assert(ctrl@[x]@.len() == 8);
                assert forall|j: int| 0 <= j < 8 implies ctrl@[x]@[j] == vacant.control[x][j] by {}
                assert(built.control[x] =~= vacant.control[x]);
            }
            assert forall|x: int| 0 <= x < group_count implies #[trigger] built.slots[x]
                == vacant.slots[x] by {
                assert forall|j: int| 0 <= j < 8 implies built.slots[x][j] == vacant.slots[x][j] by {
                    assert(groups@[x].keys@[j] is None);
                }
                assert(built.slots[x] =~= vacant.slots[x]);
            }
            assert(built.control =~= vacant.control);
            assert(built.slots =~= vacant.slots);
        }
        SimdTable { ctrl, groups, group_count, cap }
    }

    /// The number of groups of the table.
    pub fn group_count(&self) -> (n: usize)
        ensures
            n == self.layout().group_count(),
            n >= 1,
    {
        proof {
            use_type_invariant(self);
        }
        self.group_count
    }

    /// The control byte of lane `j` of group `g`, for a slot of the table.
    pub fn control_byte(&self, g: usize, j: usize) -> (byte: Option<H2>)
        ensures
            byte == if self.layout().in_table(g as int, j as int) {
                Some(self.layout().byte(g as int, j as int))
            } else {
                None
            },
    {
        proof {
            use_type_invariant(self);
        }
        if g < self.group_count && j < 8 {
            Some(self.ctrl[g][j])
        } else {
            None
        }
    }

    /// Compares each control byte of a group with a tag.
    pub fn match_h2(ctrl: &Metadata, h2: H2) -> (lanes: [bool; 8])
        ensures
            forall|j: int| 0 <= j < 8 ==> lanes@[j] == (ctrl@[j] == h2),
    {
        let mut result = [false; 8];
        for i in 0..8
            invariant
                forall|j: int| 0 <= j < i ==> result@[j] == (ctrl@[j] == h2),
        {
            result[i] = ctrl[i] == h2;
        }
        result
    }

    /// Tells for each control byte of a group whether it marks a free slot.
    pub fn empty_meta(ctrl: &Metadata) -> (lanes: [bool; 8])
        ensures
            forall|j: int| 0 <= j < 8 ==> lanes@[j] == (ctrl@[j] & MASK_EXISTS == EMPTY),
    {
        let mut result = [false; 8];
        for i in 0..8
            invariant
                forall|j: int| 0 <= j < i ==> result@[j] == (ctrl@[j] & MASK_EXISTS == EMPTY),
        {
            result[i] = (ctrl[i] & MASK_EXISTS) == EMPTY;
        }
        result
    }

    /// Hashes a key.
    pub fn hash(&self, key: &K) -> (h: HASH)
        ensures
            h == K::digest_spec(key@),
    {
        key.digest()
    }

    /// Splits a digest into its upper 57 bits and its lower 7 bits.
    pub fn hash_split(&self, hash: HASH) -> (parts: (H1, H2))
        ensures
            parts == split_spec(hash),
            parts.1 < 128,
    {
        let h1: u64 = (hash & MASK_H1) >> 7;
        let low: u64 = hash & MASK_H2;
        assert((hash & 0xFFFF_FFFF_FFFF_FF80) >> 7 == hash / 128) by (bit_vector);
        assert(hash & 0x7F == hash % 128) by (bit_vector);
        let h2: u8 = low as u8;
        (h1, h2)
    }

    /// The group where probing starts for a key whose digest has the upper
    /// bits `h1`.
    pub fn start_probe(&self, h1: H1) -> (start: usize)
        ensures
            start == h1 as int % self.layout().group_count(),
            start < self.layout().group_count(),
    {
        proof {
            use_type_invariant(self);
            vstd::arithmetic::div_mod::lemma_mod_pos_bound(h1 as int, self.group_count as int);
        }
        let n: u64 = self.group_count as u64;
        (h1 % n) as usize
    }

    /// The group reached `step` groups after `start`, wrapping at the end
    /// of the table.
    fn probe_at(&self, start: usize, step: usize) -> (g: usize)
        requires
            start < self.layout().group_count(),
            step < self.layout().group_count(),
        ensures
            g == self.layout().probe(start as int, step as int),
            g < self.layout().group_count(),
    {
        proof {
            use_type_invariant(self);
            lemma_probe_group(self.group_count as int, start as int, step as int);
        }
        let rest: usize = self.group_count - start;
        if step < rest {
            start + step
        } else {
            step - rest
        }
    }

    /// Looks for `k` among the lanes of group `g` whose control byte equals
    /// the key's tag.
    fn find_in_group(&self, g: usize, h2: H2, k: &K) -> (lane: Option<usize>)
        requires
            g < self.layout().group_count(),
            h2 == Layout::<K, V>::tag_of(k@),
        ensures
            match lane {
                Some(j) => self.layout().holds(g as int, j as int, k@),
                None => self.layout().group_lacks(g as int, k@),
            },
    {
        proof {
            use_type_invariant(self);
        }
        let ctrl_matches = Self::match_h2(&self.ctrl[g], h2);
        let mut j: usize = 0;
        while j < 8
            invariant
                j <= 8,
                g < self.layout().group_count(),
                h2 == Layout::<K, V>::tag_of(k@),
                forall|x: int| 0 <= x < 8 ==> ctrl_matches@[x] == (self.ctrl@[g as int]@[x] == h2),
                forall|x: int| 0 <= x < j ==> !self.layout().holds(g as int, x, k@),
            decreases 8 - j,
        {
            proof {
                use_type_invariant(self);
                assert(self.layout().byte(g as int, j as int) == self.ctrl@[g as int]@[j as int]);
                assert(self.layout().slots[g as int][j as int] == slot_of(
                    self.groups@[g as int],
                    j as int,
                ));
                assert(self.groups@[g as int].keys@[j as int] is Some
                    <==> self.groups@[g as int].values@[j as int] is Some);
            }
            if ctrl_matches[j] {
                if let Some(key) = &self.groups[g].keys[j] {
                    if key.same(k) {
                        return Some(j);
                    }
                }
            }
            j += 1;
        }
        None
    }

    /// Looks up the value stored under `k`.
    ///
    /// Every group is probed once, starting at the key's start group. A
    /// slot counts as a hit only when its control byte equals the key's tag
    /// and its key is `k`.
    pub fn get(&self, k: &K) -> (found: Option<&V>)
        ensures
            self.layout().wf(),
            match found {
                Some(v) => self.layout().lookup(k@) == Some(*v),
                None => self.layout().lookup(k@) is None,
            },
            match found {
                Some(v) => self@.contains_key(k@) && self@[k@] == *v,
                None => !self@.contains_key(k@),
            },
    {
        proof {
            use_type_invariant(self);
        }
        let hash = self.hash(k);
        let (h1, h2) = self.hash_split(hash);
        let group_start = self.start_probe(h1);
        let mut i: usize = 0;
        while i < self.group_count
            invariant
                i <= self.group_count,
                self.group_count == self.layout().group_count(),
                self.layout().wf(),
                group_start < self.layout().group_count(),
                h2 == Layout::<K, V>::tag_of(k@),
                self.layout().unseen(group_start as int, i as int, k@),
            decreases self.group_count - i,
        {
            let group_idx = self.probe_at(group_start, i);
            if let Some(j) = self.find_in_group(group_idx, h2, k) {
                proof {
                    use_type_invariant(self);
                    self.layout().lemma_locate(group_idx as int, j as int, k@);
                    assert(self.layout().slots[group_idx as int][j as int] == slot_of(
                        self.groups@[group_idx as int],
                        j as int,
                    ));
                }
                return self.groups[group_idx].values[j].as_ref();
            }
            i += 1;
        }
        proof {
            self.layout().lemma_unseen_is_absent(group_start as int, k@);
        }
        None
    }

    /// Finds the lowest free lane of group `g`.
    fn free_in_group(&self, g: usize) -> (lane: Option<usize>)
        requires
            g < self.layout().group_count(),
        ensures
            match lane {
                Some(j) => self.layout().lane_opens(g as int, j as int),
                None => self.layout().full(g as int),
            },
    {
        proof {
            use_type_invariant(self);
        }
        let empty_slots = Self::empty_meta(&self.ctrl[g]);
        let mut j: usize = 0;
        while j < 8
            invariant
                j <= 8,
                g < self.layout().group_count(),
                forall|x: int|
                    0 <= x < 8 ==> empty_slots@[x] == (self.ctrl@[g as int]@[x] & MASK_EXISTS
                        == EMPTY),
                forall|x: int| 0 <= x < j ==> #[trigger] self.layout().occupied(g as int, x),
            decreases 8 - j,
        {
            proof {
                use_type_invariant(self);
                let b = self.ctrl@[g as int]@[j as int];
                assert(self.layout().byte(g as int, j as int) == b);
                assert(b < 128 ==> b & 0x80 != 0x80) by (bit_vector);
                assert(b == 0x80 ==> b & 0x80 == 0x80) by (bit_vector);
            }
            if empty_slots[j] {
                return Some(j);
            }
            j += 1;
        }
        None
    }

    /// Replaces the value of an occupied slot.
    fn set_value(ctrl: &Vec<Metadata>, groups: &mut Vec<Group<K, V>>, g: usize, j: usize, v: V)
        requires
            consistent::<K, V>(ctrl@, old(groups)@),
            g < ctrl@.len(),
            j < 8,
            layout_of(ctrl@, old(groups)@).occupied(g as int, j as int),
        ensures
            consistent::<K, V>(ctrl@, final(groups)@),
            layout_of(ctrl@, final(groups)@) == layout_of(ctrl@, old(groups)@).with_value(
                g as int,
                j as int,
                v,
            ),
        no_unwind
    {
        let ghost before = layout_of(ctrl@, groups@);
        groups[g].values[j] = Some(v);
        proof {
            let after = layout_of(ctrl@, groups@);
            let want = before.with_value(g as int, j as int, v);
            before.lemma_with_value_wf(g as int, j as int, v);
            assert forall|x: int| 0 <= x < ctrl@.len() implies #[trigger] after.slots[x]
                == want.slots[x] by {
                assert forall|y: int| 0 <= y < 8 implies after.slots[x][y] == want.slots[x][y] by {
                    assert(before.slots[x][y] == slot_of(old(groups)@[x], y));
                }
                assert(after.slots[x] =~= want.slots[x]);
            }
            assert(after.slots =~= want.slots);
            assert(after.control =~= want.control);
        }
    }

    /// Writes a key, its value and its tag into a free slot.
    fn fill_slot(
        ctrl: &mut Vec<Metadata>,
        groups: &mut Vec<Group<K, V>>,
        g: usize,
        j: usize,
        h2: H2,
        k: K,
        v: V,
    )
        requires
            consistent::<K, V>(old(ctrl)@, old(groups)@),
            g < old(ctrl)@.len(),
            j < 8,
            h2 == Layout::<K, V>::tag_of(k@),
            !layout_of(old(ctrl)@, old(groups)@).occupied(g as int, j as int),
            !layout_of(old(ctrl)@, old(groups)@).contains(k@),
            layout_of(old(ctrl)@, old(groups)@).packed(
                layout_of(old(ctrl)@, old(groups)@).start_of(k@),
                probe_step(
                    old(ctrl)@.len() as int,
                    layout_of(old(ctrl)@, old(groups)@).start_of(k@),
                    g as int,
                ),
            ),
        ensures
            consistent::<K, V>(final(ctrl)@, final(groups)@),
            final(ctrl)@.len() == old(ctrl)@.len(),
            layout_of(final(ctrl)@, final(groups)@) == layout_of(
                old(ctrl)@,
                old(groups)@,
            ).with_entry(g as int, j as int, k, v),
        no_unwind
    {
        let ghost before = layout_of(ctrl@, groups@);
        ctrl[g][j] = h2;
        groups[g].keys[j] = Some(k);
        groups[g].values[j] = Some(v);
        proof {
            let after = layout_of(ctrl@, groups@);
            let want = before.with_entry(g as int, j as int, k, v);
            before.lemma_with_entry_wf(g as int, j as int, k, v);
            assert forall|x: int| 0 <= x < ctrl@.len() implies #[trigger] after.slots[x]
                == want.slots[x] by {
                assert forall|y: int| 0 <= y < 8 implies after.slots[x][y] == want.slots[x][y] by {
                    assert(before.slots[x][y] == slot_of(old(groups)@[x], y));
                }
                assert(after.slots[x] =~= want.slots[x]);
            }
            assert forall|x: int| 0 <= x < ctrl@.len() implies #[trigger] after.control[x]
                == want.control[x] by {
                assert(before.control[x] == old(ctrl)@[x]@);
                assert(after.control[x] =~= want.control[x]);
            }
            assert(after.slots =~= want.slots);
            assert(after.control =~= want.control);
        }
    }

    /// Stores `v` under `k`.
    ///
    /// A key that the table already holds keeps its slot and its control
    /// byte, and only its value is replaced. A new key is written to the
    /// lowest free lane of the first group, in probe order from the key's
    /// start group, that has a free lane. When no group has one, the table is
    /// left as it was and the entry is not stored: the table never grows.
    pub fn insert(&mut self, k: K, v: V)
        ensures
            old(self).layout().wf(),
            final(self).layout().wf(),
            final(self).layout() == old(self).layout().inserted(k, v),
            final(self)@ == if old(self)@.contains_key(k@) || old(self).layout().has_room() {
                old(self)@.insert(k@, v)
            } else {
                old(self)@
            },
            final(self).capacity() == old(self).capacity(),
    {
        proof {
            use_type_invariant(&*self);
        }
        let hash = self.hash(&k);
        let (h1, h2) = self.hash_split(hash);
        let group_start = self.start_probe(h1);
        let mut i: usize = 0;
        while i < self.group_count
            invariant
                *self == *old(self),
                i <= self.group_count,
                self.group_count == self.layout().group_count(),
                self.layout().wf(),
                group_start == self.layout().start_of(k@),
                group_start < self.layout().group_count(),
                h2 == Layout::<K, V>::tag_of(k@),
                self.layout().unseen(group_start as int, i as int, k@),
                self.layout().packed(group_start as int, i as int),
            decreases self.group_count - i,
        {
            let group_idx = self.probe_at(group_start, i);
            if let Some(j) = self.find_in_group(group_idx, h2, &k) {
                proof {
                    use_type_invariant(&*self);
                    self.layout().lemma_locate(group_idx as int, j as int, k@);
                    self.layout().lemma_inserted_map(k, v);
                }
                Self::set_value(&self.ctrl, &mut self.groups, group_idx, j, v);
                return;
            }
            if let Some(j) = self.free_in_group(group_idx) {
                proof {
                    use_type_invariant(&*self);
                    self.layout().lemma_lands_at(group_start as int, i as int, j as int, k@);
                    self.layout().lemma_inserted_map(k, v);
                }
                Self::fill_slot(&mut self.ctrl, &mut self.groups, group_idx, j, h2, k, v);
                return;
            }
            i += 1;
        }
        proof {
            self.layout().lemma_unseen_is_absent(group_start as int, k@);
            self.layout().lemma_packed_is_full(group_start as int);
            self.layout().lemma_inserted_map(k, v);
        }
    }
}

} // verus!
