use crate::check::valid_capacity;
use crate::errors::OutOfCapacityError;
use crate::hashing::{KeyHasher, TableKey};
use crate::table_model::{
    chain_ok, distance, first_vacant, has_key, holds, key_slots, keys_distinct,
    lemma_first_vacant_at, lemma_first_vacant_none, lemma_first_vacant_step, lemma_order_bound,
    lemma_order_covers, lemma_same_keys, lemma_same_vacancy, lemma_view_put, lemma_view_take,
    listed, order_ok, probe, put_fails, slot_of, view_has_key, view_keys_distinct,
    view_position, view_put, view_take,
};
use std::marker::PhantomData;
use vstd::prelude::*;

verus! {

/// One cell of the slot array.
pub enum Slot<T> {
    /// Never occupied.
    Empty,
    /// Vacated: free for reuse, but a search for a key passes over it.
    WasOccupied,
    IsOccupiedBy(T),
}

impl<T> Default for Slot<T> {
    fn default() -> (slot: Self)
        ensures
            slot is Empty,
    {
        Self::Empty
    }
}

/// Puts `src` in `dest` and returns what `dest` held.
pub(crate) fn replace<T>(dest: &mut T, src: T) -> (previous: T)
    ensures
        previous == *old(dest),
        *final(dest) == src,
{
    let mut held = src;
    core::mem::swap(dest, &mut held);
    held
}

impl<T> Slot<T> {
    pub fn is_occupied(&self) -> (occupied: bool)
        ensures
            occupied == (self is IsOccupiedBy),
    {
        match self {
            Self::IsOccupiedBy(_) => true,
            _ => false,
        }
    }

    /// Vacates the slot and returns what it held. An empty slot stays empty.
    pub fn take(&mut self) -> (old_entry: Option<T>)
        ensures
            match *old(self) {
                Slot::IsOccupiedBy(entry) => old_entry == Some(entry) && *final(self)
                    == Slot::<T>::WasOccupied,
                _ => old_entry is None && *final(self) == *old(self),
            },
    {
        match replace(self, Slot::Empty) {
            Slot::IsOccupiedBy(old_entry) => {
                *self = Slot::WasOccupied;
                Some(old_entry)
            },
            Slot::WasOccupied => {
                *self = Slot::WasOccupied;
                None
            },
            Slot::Empty => None,
        }
    }
}

/// What an occupied slot holds: a key, its value, and the slots before and
/// after it in iteration order, where `C` stands for "none".
pub struct MapEntry<K, V, const C: usize> {
    pub(crate) key: K,
    pub(crate) value: V,
    pub(crate) next: usize,
    pub(crate) prev: usize,
}

impl<K, V, const C: usize> MapEntry<K, V, C> {
    pub(crate) fn new(key: K, value: V) -> (entry: Self)
        ensures
            entry.key == key,
            entry.value == value,
            entry.next == C,
            entry.prev == C,
    {
        Self { key, value, next: C, prev: C }
    }

    pub closed spec fn spec_key(&self) -> K {
        self.key
    }

    pub closed spec fn spec_value(&self) -> V {
        self.value
    }

    pub fn key(&self) -> (key: &K)
        ensures
            *key == self.spec_key(),
    {
        &self.key
    }

    pub fn value(&self) -> (value: &V)
        ensures
            *value == self.spec_value(),
    {
        &self.value
    }

    pub fn consume_self(self) -> (value: V)
        ensures
            value == self.spec_value(),
    {
        self.value
    }
}

/// What a slot stands for: its state, and for an occupied slot the view of
/// its key and its value.
pub closed spec fn slot_model<K: View, V, const C: usize>(slot: Slot<MapEntry<K, V, C>>) -> Slot<
    (K::V, V),
> {
    match slot {
        Slot::Empty => Slot::Empty,
        Slot::WasOccupied => Slot::WasOccupied,
        Slot::IsOccupiedBy(entry) => Slot::IsOccupiedBy((entry.key@, entry.value)),
    }
}

/// The entry at position `j` of `order` names its neighbours in `order` as
/// its previous and next entry, and `C` where it has none.
pub closed spec fn linked_at<K, V, const C: usize>(
    data: Seq<Slot<MapEntry<K, V, C>>>,
    order: Seq<int>,
    j: int,
) -> bool {
    let entry = data[order[j]]->IsOccupiedBy_0;
    &&& entry.prev == (if j == 0 {
        C as int
    } else {
        order[j - 1]
    })
    &&& entry.next == (if j == order.len() - 1 {
        C as int
    } else {
        order[j + 1]
    })
}

pub(crate) enum FindIndexPurpose {
    FindSlotForInsertion,
    FindIfEntryExists,
}

/// A table of `C` slots with linear probing. Its occupied slots are threaded
/// on a list, oldest write first.
pub struct FixedSizeHashMapImpl<K, V, const C: usize, H> {
    data: Vec<Slot<MapEntry<K, V, C>>>,
    size: usize,
    head: usize,
    tail: usize,
    order: Ghost<Seq<int>>,
    phantom: PhantomData<H>,
}

impl<K: TableKey, V, const C: usize, H: KeyHasher<K>> FixedSizeHashMapImpl<K, V, C, H> {
    /// The slot array: for each slot its state and, where it is occupied, the
    /// view of its key and its value.
    pub closed spec fn slots(&self) -> Seq<Slot<(K::V, V)>> {
        self.data@.map_values(|slot: Slot<MapEntry<K, V, C>>| slot_model(slot))
    }

    /// The occupied slots in iteration order: the least recently written first.
    pub closed spec fn order(&self) -> Seq<int> {
        self.order@
    }

    /// The slot where the search for `key` starts.
    pub open spec fn home(key: K::V) -> int {
        (H::hash_of(key) as int) % (C as int)
    }

    /// Every occupied slot can be reached from the home slot of its key.
    pub open spec fn probe_ok(slots: Seq<Slot<(K::V, V)>>) -> bool {
        forall|i: int|
            0 <= i < slots.len() && (#[trigger] slots[i]) is IsOccupiedBy ==> chain_ok(
                slots,
                Self::home(slots[i]->IsOccupiedBy_0.0),
                i,
            )
    }

    /// The list fields agree with `order`.
    pub closed spec fn links_ok(&self) -> bool {
        let order = self.order@;
        &&& self.size == order.len()
        &&& self.head == (if order.len() == 0 {
            C as int
        } else {
            order[0]
        })
        &&& self.tail == (if order.len() == 0 {
            C as int
        } else {
            order.last()
        })
        &&& forall|j: int| 0 <= j < order.len() ==> #[trigger] linked_at(self.data@, order, j)
    }

    /// The invariant of the table.
    pub open spec fn wf(&self) -> bool {
        &&& valid_capacity(C)
        &&& self.slots().len() == C
        &&& keys_distinct(self.slots())
        &&& Self::probe_ok(self.slots())
        &&& order_ok(self.slots(), self.order())
        &&& self.links_ok()
    }

    /// The entries in iteration order, each key by its view.
    pub open spec fn view(&self) -> Seq<(K::V, V)> {
        self.order().map_values(|i: int| self.slots()[i]->IsOccupiedBy_0)
    }

    /// The slot that a search for `key` ends at: the slot occupied by `key`,
    /// or `C` if there is none.
    pub open spec fn spec_find(slots: Seq<Slot<(K::V, V)>>, key: K::V) -> int {
        if has_key(slots, key) {
            slot_of(slots, key)
        } else {
            C as int
        }
    }

    /// The slot that an insertion of `key` writes to: the slot occupied by
    /// `key`, else the first slot in probing order from the key's home slot
    /// that is free, else `C`.
    pub open spec fn spec_insert_slot(slots: Seq<Slot<(K::V, V)>>, key: K::V) -> int {
        if has_key(slots, key) {
            slot_of(slots, key)
        } else {
            first_vacant(slots, Self::home(key), 0)
        }
    }

    pub fn new() -> (map: Self)
        requires
            valid_capacity(C),
        ensures
            map.wf(),
            map.slots() == Seq::new(C as nat, |i: int| Slot::<(K::V, V)>::Empty),
            map.order() == Seq::<int>::empty(),
    {
        let mut data: Vec<Slot<MapEntry<K, V, C>>> = Vec::new();
        while data.len() < C
            invariant
                data.len() <= C,
                forall|i: int| 0 <= i < data.len() ==> data[i] is Empty,
            decreases C - data.len(),
        {
            data.push(Slot::Empty);
        }
        let map = FixedSizeHashMapImpl {
            data,
            size: 0,
            head: C,
            tail: C,
            order: Ghost(Seq::empty()),
            phantom: PhantomData,
        };
        map
    }

    pub fn capacity(&self) -> (capacity: usize)
        ensures
            capacity == C,
    {
        C
    }

    pub fn size(&self) -> (size: usize)
        requires
            self.wf(),
        ensures
            size == self.order().len(),
            size == self@.len(),
    {
        self.size
    }

    /// The slot where the search for `key` starts: the hash of the key,
    /// reduced to a slot number.
    pub fn calculate_index(key: &K) -> (index: usize)
        requires
            valid_capacity(C),
        ensures
            index == Self::home(key@),
            index < C,
    {
        (H::hash(key) % (C as u64)) as usize
    }

    /// Linear probing from the home slot of `key`, for at most one full cycle.
    fn find_index(&self, key: &K, purpose: FindIndexPurpose) -> (index: usize)
        requires
            self.wf(),
        ensures
            index <= C,
            purpose is FindIfEntryExists ==> index == Self::spec_find(self.slots(), key@),
            purpose is FindSlotForInsertion ==> index == Self::spec_insert_slot(
                self.slots(),
                key@,
            ),
    {
        let already_visited = Self::calculate_index(key);
        let mut index = already_visited;
        let mut reusable = C;
        let ghost slots = self.slots();
        let ghost start = already_visited as int;
        let ghost capacity = C as int;
        let ghost mut step: int = 0;
        let ghost mut vacant_step: int = 0;
        loop
            invariant
                self.wf(),
                slots == self.slots(),
                capacity == C,
                slots.len() == C,
                start == already_visited,
                start == Self::home(key@),
                0 <= start < C,
                0 <= step < C,
                index == probe(start, step, capacity),
                index < C,
                reusable <= C,
                forall|s: int|
                    0 <= s < step ==> {
                        &&& !(slots[#[trigger] probe(start, s, capacity)] is Empty)
                        &&& !holds(slots, probe(start, s, capacity), key@)
                    },
                reusable == C ==> forall|s: int|
                    0 <= s < step ==> slots[#[trigger] probe(start, s, capacity)] is IsOccupiedBy,
                reusable < C ==> {
                    &&& 0 <= vacant_step < step
                    &&& reusable == probe(start, vacant_step, capacity)
                    &&& !(slots[reusable as int] is IsOccupiedBy)
                    &&& forall|s: int|
                        0 <= s < vacant_step ==> slots[#[trigger] probe(
                            start,
                            s,
                            capacity,
                        )] is IsOccupiedBy
                },
            decreases C - step,
        {
            match &self.data[index] {
                Slot::IsOccupiedBy(entry) => {
                    if entry.key.same_key(key) {
                        assert(holds(slots, index as int, key@));
                        return index;
                    }
                },
                Slot::WasOccupied => {
                    if reusable == C {
                        reusable = index;
                        proof {
                            vacant_step = step;
                        }
                    }
                },
                Slot::Empty => {
                    proof {
                        assert forall|j: int| !holds(slots, j, key@) by {
                            if holds(slots, j, key@) {
                                let d = distance(start, j, capacity);
                                assert(probe(start, d, capacity) == j);
                            }
                        }
                        if reusable < C {
                            lemma_first_vacant_at(slots, start, 0, vacant_step);
                        } else {
                            lemma_first_vacant_at(slots, start, 0, step);
                        }
                    }
                    return match purpose {
                        FindIndexPurpose::FindIfEntryExists => C,
                        FindIndexPurpose::FindSlotForInsertion => if reusable != C {
                            reusable
                        } else {
                            index
                        },
                    };
                },
            }
            index = if index + 1 == C {
                0
            } else {
                index + 1
            };
            proof {
                step = step + 1;
            }
            if index == already_visited {
                proof {
                    assert forall|j: int| !holds(slots, j, key@) by {
                        if holds(slots, j, key@) {
                            let d = distance(start, j, capacity);
                            assert(probe(start, d, capacity) == j);
                        }
                    }
                    if reusable < C {
                        lemma_first_vacant_at(slots, start, 0, vacant_step);
                    } else {
                        lemma_first_vacant_none(slots, start, 0);
                    }
                }
                return match purpose {
                    FindIndexPurpose::FindIfEntryExists => C,
                    FindIndexPurpose::FindSlotForInsertion => reusable,
                };
            }
        }
    }

    /// The list is sound for the slots that `order` names; a slot that was
    /// just written may still be missing from it.
    closed spec fn list_ok(&self) -> bool {
        &&& self.data@.len() == C
        &&& listed(self.slots(), self.order@)
        &&& self.links_ok()
    }

    fn links_at(&self, i: usize) -> (links: (usize, usize))
        requires
            i < self.data@.len(),
            self.data@[i as int] is IsOccupiedBy,
        ensures
            links.0 == self.data@[i as int]->IsOccupiedBy_0.next,
            links.1 == self.data@[i as int]->IsOccupiedBy_0.prev,
    {
        match &self.data[i] {
            Slot::IsOccupiedBy(entry) => (entry.next, entry.prev),
            _ => (C, C),
        }
    }

    fn set_next(&mut self, i: usize, next: usize)
        requires
            i < old(self).data@.len(),
            old(self).data@[i as int] is IsOccupiedBy,
        ensures
            final(self).data@ == old(self).data@.update(
                i as int,
                Slot::IsOccupiedBy(
                    MapEntry {
                        key: old(self).data@[i as int]->IsOccupiedBy_0.key,
                        value: old(self).data@[i as int]->IsOccupiedBy_0.value,
                        next: next,
                        prev: old(self).data@[i as int]->IsOccupiedBy_0.prev,
                    },
                ),
            ),
            final(self).size == old(self).size,
            final(self).head == old(self).head,
            final(self).tail == old(self).tail,
            final(self).order == old(self).order,
    {
        match &mut self.data[i] {
            Slot::IsOccupiedBy(entry) => {
                entry.next = next;
            },
            _ => {},
        }
    }

    fn set_prev(&mut self, i: usize, prev: usize)
        requires
            i < old(self).data@.len(),
            old(self).data@[i as int] is IsOccupiedBy,
        ensures
            final(self).data@ == old(self).data@.update(
                i as int,
                Slot::IsOccupiedBy(
                    MapEntry {
                        key: old(self).data@[i as int]->IsOccupiedBy_0.key,
                        value: old(self).data@[i as int]->IsOccupiedBy_0.value,
                        next: old(self).data@[i as int]->IsOccupiedBy_0.next,
                        prev: prev,
                    },
                ),
            ),
            final(self).size == old(self).size,
            final(self).head == old(self).head,
            final(self).tail == old(self).tail,
            final(self).order == old(self).order,
    {
        match &mut self.data[i] {
            Slot::IsOccupiedBy(entry) => {
                entry.prev = prev;
            },
            _ => {},
        }
    }

    /// Appends the occupied slot `i`, which the list does not hold yet.
    fn add_to_list(&mut self, i: usize)
        requires
            old(self).list_ok(),
            i < C,
            old(self).data@[i as int] is IsOccupiedBy,
            !old(self).order@.contains(i as int),
        ensures
            final(self).list_ok(),
            final(self).order@ == old(self).order@.push(i as int),
            final(self).slots() == old(self).slots(),
    {
        let ghost order = self.order@;
        let ghost new_order = order.push(i as int);
        let ghost data = self.data@;
        proof {
            assert(new_order.no_duplicates());
            lemma_order_bound(new_order, C as int);
        }
        self.set_next(i, C);
        if self.size == 0 {
            self.set_prev(i, C);
            self.head = i;
            self.tail = i;
        } else {
            let tail = self.tail;
            self.set_next(tail, i);
            self.set_prev(i, tail);
            self.tail = i;
        }
        self.size += 1;
        proof {
            self.order@ = new_order;
            assert(self.slots() =~= old(self).slots());
            assert forall|j: int| 0 <= j < new_order.len() implies #[trigger] linked_at(
                self.data@,
                new_order,
                j,
            ) by {
                if j < order.len() {
                    assert(linked_at(data, order, j));
                }
            }
        }
    }

    /// Unlinks slot `i` from the list. The other slots keep their order, and
    /// the entry in slot `i` names no neighbour any more.
    fn remove_from_list(&mut self, i: usize)
        requires
            old(self).list_ok(),
            old(self).order@.contains(i as int),
        ensures
            final(self).list_ok(),
            final(self).order@ == old(self).order@.remove(old(self).order@.index_of(i as int)),
            !final(self).order@.contains(i as int),
            final(self).slots() == old(self).slots(),
            final(self).size == old(self).size - 1,
            final(self).data@[i as int] is IsOccupiedBy,
            final(self).data@[i as int]->IsOccupiedBy_0.next == C,
            final(self).data@[i as int]->IsOccupiedBy_0.prev == C,
    {
        let ghost order = self.order@;
        let ghost at = order.index_of(i as int);
        let ghost new_order = order.remove(at);
        let ghost data = self.data@;
        proof {
            assert(order[at] == i);
            assert(linked_at(data, order, at));
        }
        let (entry_next, entry_prev) = self.links_at(i);
        self.set_next(i, C);
        self.set_prev(i, C);
        if self.size == 1 {
            self.head = C;
            self.tail = C;
        } else {
            if entry_prev != C {
                self.set_next(entry_prev, entry_next);
            } else {
                self.head = entry_next;
            }
            if entry_next != C {
                self.set_prev(entry_next, entry_prev);
            } else {
                self.tail = entry_prev;
            }
        }
        self.size -= 1;
        proof {
            self.order@ = new_order;
            assert(self.slots() =~= old(self).slots());
            assert forall|j: int| 0 <= j < new_order.len() implies #[trigger] linked_at(
                self.data@,
                new_order,
                j,
            ) by {
                let j0 = if j < at { j } else { j + 1 };
                assert(linked_at(data, order, j0));
            }
        }
    }

    /// Moves slot `i` to the end of the list: unlinks it, then appends it.
    fn move_to_back_of_list(&mut self, i: usize)
        requires
            old(self).list_ok(),
            old(self).order@.contains(i as int),
        ensures
            final(self).list_ok(),
            final(self).order@ == old(self).order@.remove(
                old(self).order@.index_of(i as int),
            ).push(i as int),
            final(self).slots() == old(self).slots(),
    {
        self.remove_from_list(i);
        assert(self.slots()[i as int] is IsOccupiedBy);
        self.add_to_list(i);
    }

    /// Writing a new key to the first free slot on its probing path keeps
    /// the keys distinct and every key reachable.
    proof fn lemma_occupy_ok(slots: Seq<Slot<(K::V, V)>>, key: K::V, value: V, i: int)
        requires
            valid_capacity(C),
            slots.len() == C,
            keys_distinct(slots),
            Self::probe_ok(slots),
            !has_key(slots, key),
            i == first_vacant(slots, Self::home(key), 0),
            i < C,
        ensures
            0 <= i < C,
            !(slots[i] is IsOccupiedBy),
            keys_distinct(slots.update(i, Slot::IsOccupiedBy((key, value)))),
            Self::probe_ok(slots.update(i, Slot::IsOccupiedBy((key, value)))),
    {
        let start = Self::home(key);
        let capacity = C as int;
        let after = slots.update(i, Slot::IsOccupiedBy((key, value)));
        let at = lemma_first_vacant_step(slots, start, 0);
        assert(distance(start, i, capacity) == at);
        assert forall|a: int, b: int, k: K::V| #[trigger]
            holds(after, a, k) && #[trigger] holds(after, b, k) implies a == b by {
            if a != i {
                assert(holds(slots, a, k));
            }
            if b != i {
                assert(holds(slots, b, k));
            }
        }
        assert forall|j: int| 0 <= j < after.len() && (#[trigger] after[j]) is IsOccupiedBy implies chain_ok(
            after,
            Self::home(after[j]->IsOccupiedBy_0.0),
            j,
        ) by {
            if j == i {
                assert forall|step: int| 0 <= step < distance(start, i, capacity) implies !(after[#[trigger] probe(
                    start,
                    step,
                    capacity,
                )] is Empty) by {
                    assert(slots[probe(start, step, capacity)] is IsOccupiedBy);
                }
            } else {
                let home = Self::home(slots[j]->IsOccupiedBy_0.0);
                assert(slots[j] is IsOccupiedBy);
                assert(chain_ok(slots, home, j));
                assert forall|step: int| 0 <= step < distance(home, j, capacity) implies !(after[#[trigger] probe(
                    home,
                    step,
                    capacity,
                )] is Empty) by {
                    assert(!(slots[probe(home, step, capacity)] is Empty));
                }
            }
        }
    }

    /// Writing to an occupied slot a value for the key it holds, or vacating
    /// it, keeps the keys distinct and every key reachable.
    proof fn lemma_rewrite_ok(slots: Seq<Slot<(K::V, V)>>, i: int, slot: Slot<(K::V, V)>)
        requires
            valid_capacity(C),
            slots.len() == C,
            keys_distinct(slots),
            Self::probe_ok(slots),
            0 <= i < C,
            slots[i] is IsOccupiedBy,
            slot is WasOccupied || (slot is IsOccupiedBy && slot->IsOccupiedBy_0.0
                == slots[i]->IsOccupiedBy_0.0),
        ensures
            keys_distinct(slots.update(i, slot)),
            Self::probe_ok(slots.update(i, slot)),
    {
        let capacity = C as int;
        let after = slots.update(i, slot);
        assert forall|a: int, b: int, k: K::V| #[trigger]
            holds(after, a, k) && #[trigger] holds(after, b, k) implies a == b by {
            assert(holds(slots, a, k));
            assert(holds(slots, b, k));
        }
        assert forall|j: int| 0 <= j < after.len() && (#[trigger] after[j]) is IsOccupiedBy implies chain_ok(
            after,
            Self::home(after[j]->IsOccupiedBy_0.0),
            j,
        ) by {
            let home = Self::home(slots[j]->IsOccupiedBy_0.0);
            assert(slots[j] is IsOccupiedBy);
            assert(chain_ok(slots, home, j));
            assert forall|step: int| 0 <= step < distance(home, j, capacity) implies !(after[#[trigger] probe(
                home,
                step,
                capacity,
            )] is Empty) by {
                assert(!(slots[probe(home, step, capacity)] is Empty));
            }
        }
    }

    /// A table is full, with every slot occupied, exactly when it holds `C`
    /// entries.
    pub proof fn lemma_full(&self)
        requires
            self.wf(),
        ensures
            self.order().len() <= C,
            self.order().len() == C <==> (forall|i: int|
                0 <= i < C ==> (#[trigger] self.slots()[i]) is IsOccupiedBy),
    {
        let order = self.order();
        lemma_order_bound(order, C as int);
        if forall|i: int| 0 <= i < C ==> (#[trigger] self.slots()[i]) is IsOccupiedBy {
            assert forall|i: int| 0 <= i < C implies order.contains(i) by {
                assert(self.slots()[i] is IsOccupiedBy);
            }
            lemma_order_covers(order, C as int);
        }
        if order.len() == C {
            assert forall|i: int| 0 <= i < C implies (#[trigger] self.slots()[i]) is IsOccupiedBy by {
                assert(order.contains(i));
                let j = choose|j: int| 0 <= j < order.len() && order[j] == i;
                assert(self.slots()[order[j]] is IsOccupiedBy);
            }
        }
    }

    fn replace_value(&mut self, i: usize, value: V) -> (previous: V)
        requires
            i < old(self).data@.len(),
            old(self).data@[i as int] is IsOccupiedBy,
        ensures
            previous == old(self).data@[i as int]->IsOccupiedBy_0.value,
            final(self).data@ == old(self).data@.update(
                i as int,
                Slot::IsOccupiedBy(
                    MapEntry {
                        key: old(self).data@[i as int]->IsOccupiedBy_0.key,
                        value: value,
                        next: old(self).data@[i as int]->IsOccupiedBy_0.next,
                        prev: old(self).data@[i as int]->IsOccupiedBy_0.prev,
                    },
                ),
            ),
            final(self).size == old(self).size,
            final(self).head == old(self).head,
            final(self).tail == old(self).tail,
            final(self).order == old(self).order,
    {
        match &mut self.data[i] {
            Slot::IsOccupiedBy(entry) => replace(&mut entry.value, value),
            _ => value,
        }
    }

    /// Stores `value` under `key` and makes the entry the newest one. Returns
    /// the slot of the entry and the value that `key` had. Fails, and leaves
    /// the table as it was, when `key` is new and every slot is occupied.
    pub fn insert_get_index(&mut self, key: K, value: V) -> (result: Result<
        (usize, Option<V>),
        OutOfCapacityError,
    >)
        requires
            old(self).wf(),
        ensures
            final(self).wf(),
            result is Err <==> !has_key(old(self).slots(), key@) && old(self).order().len() == C,
            match result {
                Ok((i, previous)) => {
                    &&& i < C
                    &&& i == Self::spec_insert_slot(old(self).slots(), key@)
                    &&& final(self).slots() == old(self).slots().update(
                        i as int,
                        Slot::IsOccupiedBy((key@, value)),
                    )
                    &&& if has_key(old(self).slots(), key@) {
                        &&& previous == Some(old(self).slots()[i as int]->IsOccupiedBy_0.1)
                        &&& final(self).order() == old(self).order().remove(
                            old(self).order().index_of(i as int),
                        ).push(i as int)
                    } else {
                        &&& previous is None
                        &&& !(old(self).slots()[i as int] is IsOccupiedBy)
                        &&& final(self).order() == old(self).order().push(i as int)
                    }
                },
                Err(error) => error.capacity == C && *final(self) == *old(self),
            },
    {
        let ghost slots = self.slots();
        let i = self.find_index(&key, FindIndexPurpose::FindSlotForInsertion);
        proof {
            self.lemma_full();
            if !has_key(slots, key@) {
                let start = Self::home(key@);
                let at = lemma_first_vacant_step(slots, start, 0);
                if at == C {
                    assert forall|j: int| 0 <= j < C implies (#[trigger] slots[j]) is IsOccupiedBy by {
                        let d = distance(start, j, C as int);
                        assert(probe(start, d, C as int) == j);
                    }
                }
            }
        }
        if i == C {
            return Result::Err(OutOfCapacityError { capacity: C });
        }
        if self.data[i].is_occupied() {
            proof {
                Self::lemma_rewrite_ok(slots, i as int, Slot::IsOccupiedBy((key@, value)));
            }
            let previous = self.replace_value(i, value);
            assert(self.slots() =~= slots.update(i as int, Slot::IsOccupiedBy((key@, value))));
            proof {
                assert(old(self).order().contains(i as int));
                assert forall|j: int| 0 <= j < self.order@.len() implies #[trigger] linked_at(
                    self.data@,
                    self.order@,
                    j,
                ) by {
                    assert(linked_at(old(self).data@, self.order@, j));
                }
            }
            self.move_to_back_of_list(i);
            proof {
                let order = old(self).order();
                let at = order.index_of(i as int);
                let new_order = self.order();
                assert forall|x: int| 0 <= x < C && (#[trigger] self.slots()[x]) is IsOccupiedBy implies new_order.contains(
                    x,
                ) by {
                    assert(slots[x] is IsOccupiedBy);
                    if x == i {
                        assert(new_order[new_order.len() - 1] == i);
                    } else {
                        let j = choose|j: int| 0 <= j < order.len() && order[j] == x;
                        let j1 = if j < at { j } else { j - 1 };
                        assert(new_order[j1] == x);
                    }
                }
            }
            Result::Ok((i, Some(previous)))
        } else {
            proof {
                Self::lemma_occupy_ok(slots, key@, value, i as int);
            }
            self.data[i] = Slot::IsOccupiedBy(MapEntry::new(key, value));
            assert(self.slots() =~= slots.update(i as int, Slot::IsOccupiedBy((key@, value))));
            proof {
                assert forall|j: int| 0 <= j < self.order@.len() implies #[trigger] linked_at(
                    self.data@,
                    self.order@,
                    j,
                ) by {
                    assert(linked_at(old(self).data@, self.order@, j));
                    assert(slots[self.order@[j]] is IsOccupiedBy);
                }
            }
            self.add_to_list(i);
            proof {
                let order = old(self).order();
                let new_order = self.order();
                assert forall|x: int| 0 <= x < C && (#[trigger] self.slots()[x]) is IsOccupiedBy implies new_order.contains(
                    x,
                ) by {
                    if x == i {
                        assert(new_order[new_order.len() - 1] == i);
                    } else {
                        assert(slots[x] is IsOccupiedBy);
                        let j = choose|j: int| 0 <= j < order.len() && order[j] == x;
                        assert(new_order[j] == x);
                    }
                }
            }
            Result::Ok((i, None))
        }
    }

    /// The slot that holds `key`, if any.
    pub fn get_index_of(&self, key: &K) -> (index: Option<usize>)
        requires
            self.wf(),
        ensures
            index is Some <==> has_key(self.slots(), key@),
            index is Some ==> index->Some_0 == slot_of(self.slots(), key@) && index->Some_0 < C,
    {
        let i = self.find_index(key, FindIndexPurpose::FindIfEntryExists);
        if i != C {
            Some(i)
        } else {
            None
        }
    }

    /// Whether `key` is stored.
    pub fn contains(&self, key: &K) -> (found: bool)
        requires
            self.wf(),
        ensures
            found == has_key(self.slots(), key@),
            found == view_has_key(self@, key@),
    {
        proof {
            self.lemma_view();
        }
        self.find_index(key, FindIndexPurpose::FindIfEntryExists) != C
    }

    /// The entry in slot `i`, if the slot is occupied.
    pub fn get_entry_at(&self, i: usize) -> (entry: Option<&MapEntry<K, V, C>>)
        requires
            self.wf(),
        ensures
            entry is Some <==> i < C && self.slots()[i as int] is IsOccupiedBy,
            entry is Some ==> self.slots()[i as int] == Slot::IsOccupiedBy(
                (entry->Some_0.spec_key()@, entry->Some_0.spec_value()),
            ),
    {
        if i < C {
            match &self.data[i] {
                Slot::IsOccupiedBy(entry) => Some(entry),
                _ => None,
            }
        } else {
            None
        }
    }

    /// `self` is `before` with another value in the occupied slot `i`, and
    /// nothing else changed.
    closed spec fn revalued(&self, before: &Self, i: int) -> bool {
        &&& 0 <= i < before.data@.len()
        &&& before.data@[i] is IsOccupiedBy
        &&& self.data@.len() == before.data@.len()
        &&& self.data@[i] is IsOccupiedBy
        &&& self.data@[i]->IsOccupiedBy_0.key == before.data@[i]->IsOccupiedBy_0.key
        &&& self.data@[i]->IsOccupiedBy_0.next == before.data@[i]->IsOccupiedBy_0.next
        &&& self.data@[i]->IsOccupiedBy_0.prev == before.data@[i]->IsOccupiedBy_0.prev
        &&& self.data@ =~= before.data@.update(i, self.data@[i])
        &&& self.size == before.size
        &&& self.head == before.head
        &&& self.tail == before.tail
        &&& self.order@ == before.order@
    }

    /// A table stays sound when a value in it is changed in place.
    proof fn lemma_revalued(&self, before: &Self, i: int)
        requires
            before.wf(),
            self.revalued(before, i),
        ensures
            self.wf(),
            self.order() == before.order(),
            self.slots() == before.slots().update(
                i,
                Slot::IsOccupiedBy(
                    (before.slots()[i]->IsOccupiedBy_0.0, self.slots()[i]->IsOccupiedBy_0.1),
                ),
            ),
    {
        let slots = before.slots();
        let key = slots[i]->IsOccupiedBy_0.0;
        let order = before.order@;
        let slot = Slot::IsOccupiedBy((key, self.slots()[i]->IsOccupiedBy_0.1));
        Self::lemma_rewrite_ok(slots, i, slot);
        assert(self.slots() =~= slots.update(i, slot));
        assert forall|j: int| 0 <= j < order.len() implies #[trigger] linked_at(
            self.data@,
            order,
            j,
        ) by {
            assert(linked_at(before.data@, order, j));
        }
    }

    /// The value in the occupied slot `i`, to be changed in place. The key,
    /// the slot and the iteration order stay as they are.
    pub fn value_mut_at(&mut self, i: usize) -> (value: &mut V)
        requires
            old(self).wf(),
            i < C,
            old(self).slots()[i as int] is IsOccupiedBy,
        ensures
            *value == old(self).slots()[i as int]->IsOccupiedBy_0.1,
            final(self).wf(),
            final(self).order() == old(self).order(),
            final(self).slots() == old(self).slots().update(
                i as int,
                Slot::IsOccupiedBy((old(self).slots()[i as int]->IsOccupiedBy_0.0, *final(value))),
            ),
    {
        proof {
            let before = *self;
            assert forall|after: Self| after.revalued(&before, i as int) implies #[trigger] after.wf() by {
                after.lemma_revalued(&before, i as int);
            }
        }
        match &mut self.data[i] {
            Slot::IsOccupiedBy(entry) => &mut entry.value,
            _ => vstd::pervasive::unreached(),
        }
    }

    /// The value in slot `i`, to be changed in place, if the slot is occupied.
    pub fn get_mut_entry_at(&mut self, i: usize) -> (value: Option<&mut V>)
        requires
            old(self).wf(),
        ensures
            value is Some <==> i < C && old(self).slots()[i as int] is IsOccupiedBy,
            value is None ==> *final(self) == *old(self),
            match value {
                Some(v) => {
                    &&& *v == old(self).slots()[i as int]->IsOccupiedBy_0.1
                    &&& final(self).wf()
                    &&& final(self).order() == old(self).order()
                    &&& final(self).slots() == old(self).slots().update(
                        i as int,
                        Slot::IsOccupiedBy(
                            (old(self).slots()[i as int]->IsOccupiedBy_0.0, *final(v)),
                        ),
                    )
                },
                None => true,
            },
    {
        if i < C && self.data[i].is_occupied() {
            Some(self.value_mut_at(i))
        } else {
            None
        }
    }

    /// The entry of `key` and its slot, if `key` is stored.
    pub fn get_entry_and_index_of(&self, key: &K) -> (found: Option<(&MapEntry<K, V, C>, usize)>)
        requires
            self.wf(),
        ensures
            found is Some <==> has_key(self.slots(), key@),
            found is Some ==> {
                &&& found->Some_0.1 == slot_of(self.slots(), key@)
                &&& found->Some_0.1 < C
                &&& self.slots()[found->Some_0.1 as int] == Slot::IsOccupiedBy(
                    (key@, found->Some_0.0.spec_value()),
                )
                &&& found->Some_0.0.spec_key()@ == key@
            },
    {
        let i = self.find_index(key, FindIndexPurpose::FindIfEntryExists);
        match self.get_entry_at(i) {
            Some(entry) => Some((entry, i)),
            None => None,
        }
    }

    /// The value of `key`, to be changed in place, and its slot, if `key` is
    /// stored.
    pub fn get_mut_entry_and_index_of(&mut self, key: &K) -> (found: Option<(&mut V, usize)>)
        requires
            old(self).wf(),
        ensures
            found is Some <==> has_key(old(self).slots(), key@),
            found is None ==> *final(self) == *old(self),
            match found {
                Some((v, i)) => {
                    &&& i == slot_of(old(self).slots(), key@)
                    &&& i < C
                    &&& *v == old(self).slots()[i as int]->IsOccupiedBy_0.1
                    &&& final(self).wf()
                    &&& final(self).order() == old(self).order()
                    &&& final(self).slots() == old(self).slots().update(
                        i as int,
                        Slot::IsOccupiedBy((key@, *final(v))),
                    )
                },
                None => true,
            },
    {
        let i = self.find_index(key, FindIndexPurpose::FindIfEntryExists);
        if i != C {
            Some((self.value_mut_at(i), i))
        } else {
            None
        }
    }

    /// Removes `key` and returns its entry. The slot stays blocked for
    /// searches that pass over it, and is free for a later insertion.
    pub fn remove(&mut self, key: &K) -> (removed: Option<MapEntry<K, V, C>>)
        requires
            old(self).wf(),
        ensures
            final(self).wf(),
            removed is Some <==> has_key(old(self).slots(), key@),
            removed is Some <==> view_has_key(old(self)@, key@),
            match removed {
                Some(entry) => {
                    let i = slot_of(old(self).slots(), key@);
                    let at = view_position(old(self)@, key@);
                    &&& old(self).slots()[i] == Slot::IsOccupiedBy(
                        (entry.spec_key()@, entry.spec_value()),
                    )
                    &&& final(self).slots() == old(self).slots().update(i, Slot::WasOccupied)
                    &&& final(self).order() == old(self).order().remove(
                        old(self).order().index_of(i),
                    )
                    &&& old(self)@[at] == (entry.spec_key()@, entry.spec_value())
                    &&& final(self)@.len() == old(self)@.len() - 1
                },
                None => *final(self) == *old(self),
            },
            final(self)@ == view_take(old(self)@, key@),
            !view_has_key(final(self)@, key@),
    {
        let ghost slots = self.slots();
        proof {
            self.lemma_view();
            lemma_view_take(self@, key@);
        }
        let i = self.find_index(key, FindIndexPurpose::FindIfEntryExists);
        if i == C {
            return None;
        }
        proof {
            Self::lemma_rewrite_ok(slots, i as int, Slot::WasOccupied);
        }
        self.remove_from_list(i);
        let ghost data = self.data@;
        let removed = self.data[i].take();
        proof {
            let order = old(self).order();
            let at = order.index_of(i as int);
            let new_order = self.order@;
            assert(self.slots() =~= slots.update(i as int, Slot::WasOccupied));
            assert forall|j: int| 0 <= j < new_order.len() implies #[trigger] linked_at(
                self.data@,
                new_order,
                j,
            ) by {
                assert(linked_at(data, new_order, j));
                assert(slots[new_order[j]] is IsOccupiedBy);
            }
            assert forall|x: int| 0 <= x < C && (#[trigger] self.slots()[x]) is IsOccupiedBy implies new_order.contains(
                x,
            ) by {
                let j = choose|j: int| 0 <= j < order.len() && order[j] == x;
                let j1 = if j < at { j } else { j - 1 };
                assert(new_order[j1] == x);
            }
        }
        removed
    }

    /// The oldest entry.
    pub fn head(&self) -> (entry: Option<&MapEntry<K, V, C>>)
        requires
            self.wf(),
        ensures
            entry is Some <==> self@.len() > 0,
            entry is Some ==> self@.first() == (entry->Some_0.spec_key()@, entry->Some_0.spec_value()),
    {
        self.get_entry_at(self.head)
    }

    /// The newest entry.
    pub fn tail(&self) -> (entry: Option<&MapEntry<K, V, C>>)
        requires
            self.wf(),
        ensures
            entry is Some <==> self@.len() > 0,
            entry is Some ==> self@.last() == (entry->Some_0.spec_key()@, entry->Some_0.spec_value()),
    {
        self.get_entry_at(self.tail)
    }

    /// How the entries in iteration order relate to the slots: the view has
    /// one entry for each stored key, at the position of its slot in `order`.
    pub proof fn lemma_view(&self)
        requires
            self.wf(),
        ensures
            self@.len() == self.order().len(),
            self@.len() <= C,
            view_keys_distinct(self@),
            forall|key: K::V| has_key(self.slots(), key) <==> view_has_key(self@, key),
            forall|key: K::V| #[trigger]
                has_key(self.slots(), key) ==> {
                    let at = view_position(self@, key);
                    &&& 0 <= at < self@.len()
                    &&& self.order()[at] == slot_of(self.slots(), key)
                    &&& self.order().index_of(slot_of(self.slots(), key)) == at
                    &&& self.slots()[slot_of(self.slots(), key)] == Slot::IsOccupiedBy(self@[at])
                    &&& self@[at].0 == key
                },
    {
        let slots = self.slots();
        let order = self.order();
        let view = self@;
        self.lemma_full();
        assert forall|a: int, b: int|
            0 <= a < view.len() && 0 <= b < view.len() && (#[trigger] view[a]).0 == (
            #[trigger] view[b]).0 implies a == b by {
            assert(holds(slots, order[a], view[a].0));
            assert(holds(slots, order[b], view[a].0));
        }
        assert forall|key: K::V| has_key(slots, key) implies view_has_key(view, key) && {
            let at = view_position(view, key);
            &&& 0 <= at < view.len()
            &&& order[at] == slot_of(slots, key)
            &&& order.index_of(slot_of(slots, key)) == at
            &&& slots[slot_of(slots, key)] == Slot::IsOccupiedBy(view[at])
            &&& view[at].0 == key
        } by {
            let i = slot_of(slots, key);
            assert(holds(slots, i, key));
            assert(order.contains(i));
            let j = choose|j: int| 0 <= j < order.len() && order[j] == i;
            assert(view[j].0 == key);
            let at = view_position(view, key);
            assert(holds(slots, order[at], key));
            let found = order.index_of(i);
            assert(order[found] == i);
        }
        assert forall|key: K::V| view_has_key(view, key) implies has_key(slots, key) by {
            let at = view_position(view, key);
            assert(holds(slots, order[at], key));
        }
    }

    /// Stores `value` under `key` and makes the entry the newest one. Returns
    /// the value that `key` had. Fails, and leaves the table as it was, when
    /// `key` is new and the table holds `C` entries.
    pub fn insert(&mut self, key: K, value: V) -> (result: Result<Option<V>, OutOfCapacityError>)
        requires
            old(self).wf(),
        ensures
            final(self).wf(),
            result is Err <==> put_fails(old(self)@, key@, C as int),
            match result {
                Ok(previous) => {
                    &&& final(self)@ == view_put(old(self)@, key@, value)
                    &&& final(self)@.last() == (key@, value)
                    &&& if view_has_key(old(self)@, key@) {
                        &&& previous == Some(old(self)@[view_position(old(self)@, key@)].1)
                        &&& final(self)@.len() == old(self)@.len()
                    } else {
                        &&& previous is None
                        &&& final(self)@.len() == old(self)@.len() + 1
                    }
                },
                Err(error) => error.capacity == C && *final(self) == *old(self),
            },
    {
        proof {
            self.lemma_view();
            lemma_view_put(self@, key@, value);
        }
        match self.insert_get_index(key, value) {
            Ok((i, previous)) => {
                Ok(previous)
            },
            Err(error) => Err(error),
        }
    }

    /// The value stored under `key`.
    pub fn get(&self, key: &K) -> (value: Option<&V>)
        requires
            self.wf(),
        ensures
            value is Some <==> view_has_key(self@, key@),
            value is Some ==> *value->Some_0 == self@[view_position(self@, key@)].1,
    {
        proof {
            self.lemma_view();
        }
        match self.get_entry_and_index_of(key) {
            Some((entry, _)) => Some(entry.value()),
            None => None,
        }
    }

    /// The value stored under `key`, to be changed in place. The entry keeps
    /// its place in the iteration order.
    pub fn get_mut(&mut self, key: &K) -> (value: Option<&mut V>)
        requires
            old(self).wf(),
        ensures
            value is Some <==> view_has_key(old(self)@, key@),
            value is None ==> *final(self) == *old(self),
            match value {
                Some(v) => {
                    let at = view_position(old(self)@, key@);
                    &&& *v == old(self)@[at].1
                    &&& final(self).wf()
                    &&& final(self)@ == old(self)@.update(at, (key@, *final(v)))
                },
                None => true,
            },
    {
        proof {
            self.lemma_view();
            let before = *self;
            let at = view_position(before@, key@);
            assert forall|after: Self|
                after.order() == before.order() && has_key(before.slots(), key@) && after.slots()
                    == before.slots().update(
                    slot_of(before.slots(), key@),
                    Slot::IsOccupiedBy(
                        (key@, after.slots()[slot_of(before.slots(), key@)]->IsOccupiedBy_0.1),
                    ),
                ) implies #[trigger] after.view() == before@.update(
                at,
                (key@, after.slots()[slot_of(before.slots(), key@)]->IsOccupiedBy_0.1),
            ) by {
                assert(after.view() =~= before@.update(
                    at,
                    (key@, after.slots()[slot_of(before.slots(), key@)]->IsOccupiedBy_0.1),
                ));
            }
        }
        match self.get_mut_entry_and_index_of(key) {
            Some((value, _)) => Some(value),
            None => None,
        }
    }

    /// The oldest value, to be changed in place.
    pub fn mut_head(&mut self) -> (value: Option<&mut V>)
        requires
            old(self).wf(),
        ensures
            value is Some <==> old(self)@.len() > 0,
            value is None ==> *final(self) == *old(self),
            match value {
                Some(v) => {
                    &&& *v == old(self)@.first().1
                    &&& final(self).wf()
                    &&& final(self)@ == old(self)@.update(0, (old(self)@.first().0, *final(v)))
                },
                None => true,
            },
    {
        let head = self.head;
        self.get_mut_entry_at(head)
    }

    /// The newest value, to be changed in place.
    pub fn mut_tail(&mut self) -> (value: Option<&mut V>)
        requires
            old(self).wf(),
        ensures
            value is Some <==> old(self)@.len() > 0,
            value is None ==> *final(self) == *old(self),
            match value {
                Some(v) => {
                    &&& *v == old(self)@.last().1
                    &&& final(self).wf()
                    &&& final(self)@ == old(self)@.update(
                        old(self)@.len() - 1,
                        (old(self)@.last().0, *final(v)),
                    )
                },
                None => true,
            },
    {
        let tail = self.tail;
        self.get_mut_entry_at(tail)
    }

    /// Makes the entry in the occupied slot `i` the newest one.
    pub fn move_to_back(&mut self, i: usize)
        requires
            old(self).wf(),
            i < C,
            old(self).slots()[i as int] is IsOccupiedBy,
        ensures
            final(self).wf(),
            final(self).slots() == old(self).slots(),
            final(self).order() == old(self).order().remove(
                old(self).order().index_of(i as int),
            ).push(i as int),
    {
        self.move_to_back_of_list(i);
        proof {
            let order = old(self).order();
            let at = order.index_of(i as int);
            let new_order = self.order();
            assert forall|x: int| 0 <= x < C && (#[trigger] self.slots()[x]) is IsOccupiedBy implies new_order.contains(
                x,
            ) by {
                if !(x == i) {
                    let j = choose|j: int| 0 <= j < order.len() && order[j] == x;
                    let j1 = if j < at { j } else { j - 1 };
                    assert(new_order[j1] == x);
                }
            }
        }
    }

    /// In two tables with the same states and keys, a search for a key and
    /// an insertion of it end at the same slots.
    pub proof fn lemma_same_probing<B>(
        a: Seq<Slot<(K::V, V)>>,
        b: Seq<Slot<(K::V, B)>>,
        key: K::V,
    )
        requires
            valid_capacity(C),
            a.len() == C,
            key_slots(a) == key_slots(b),
            keys_distinct(a),
        ensures
            Self::spec_find(a, key) == FixedSizeHashMapImpl::<K, B, C, H>::spec_find(b, key),
            Self::spec_insert_slot(a, key) == FixedSizeHashMapImpl::<K, B, C, H>::spec_insert_slot(
                b,
                key,
            ),
    {
        lemma_same_keys(a, b);
        lemma_same_vacancy(a, b, Self::home(key), 0);
    }

    /// An iterator over the entries, oldest first.
    pub fn iter_head(&self) -> (iter: MapIteratorImpl<'_, K, V, C, H>)
        requires
            self.wf(),
        ensures
            iter.wf(),
            iter.remaining_items() == self@,
    {
        let iter = MapIteratorImpl {
            remaining: self.size,
            current: self.head,
            map: self,
            forward: true,
            position: Ghost(0),
        };
        iter
    }

    /// An iterator over the entries, newest first.
    pub fn iter_tail(&self) -> (iter: MapIteratorImpl<'_, K, V, C, H>)
        requires
            self.wf(),
        ensures
            iter.wf(),
            iter.remaining_items() == self@.reverse(),
    {
        let iter = MapIteratorImpl {
            remaining: self.size,
            current: self.tail,
            map: self,
            forward: false,
            position: Ghost(self.order@.len() - 1),
        };
        iter
    }
}

impl<K: TableKey, V, const C: usize, H: KeyHasher<K>> std::ops::Index<&K> for FixedSizeHashMapImpl<K, V, C, H> {
    type Output = V;

    /// The value stored under `key`, which the caller knows to be stored.
    fn index(&self, key: &K) -> (value: &V)
        ensures
            *value == self@[view_position(self@, key@)].1,
    {
        match self.get(key) {
            Some(value) => value,
            None => vstd::pervasive::unreached(),
        }
    }
}

impl<K: TableKey, V, const C: usize, H: KeyHasher<K>> vstd::std_specs::core::IndexSpecImpl<&K> for FixedSizeHashMapImpl<K, V, C, H> {
    open spec fn index_req(&self, key: &&K) -> bool {
        self.wf() && view_has_key(self@, key@)
    }
}

/// A walk along the list of a table, in either direction.
pub struct MapIteratorImpl<'a, K, V, const C: usize, H> {
    remaining: usize,
    current: usize,
    map: &'a FixedSizeHashMapImpl<K, V, C, H>,
    forward: bool,
    position: Ghost<int>,
}

impl<'a, K: TableKey, V, const C: usize, H: KeyHasher<K>> MapIteratorImpl<'a, K, V, C, H> {
    /// The invariant of the iterator: it stands at a position of the list of
    /// a sound table, and counts the entries from there on.
    pub closed spec fn wf(&self) -> bool {
        let order = self.map.order@;
        let at = self.position@;
        &&& self.map.wf()
        &&& if self.forward {
            &&& 0 <= at <= order.len()
            &&& self.remaining == order.len() - at
            &&& self.current == (if at < order.len() {
                order[at]
            } else {
                C as int
            })
        } else {
            &&& -1 <= at < order.len()
            &&& self.remaining == at + 1
            &&& self.current == (if at >= 0 {
                order[at]
            } else {
                C as int
            })
        }
    }

    /// The entries that the iterator has yet to yield, in the order in which
    /// it yields them.
    pub closed spec fn remaining_items(&self) -> Seq<(K::V, V)> {
        if self.forward {
            self.map@.subrange(self.position@, self.map@.len() as int)
        } else {
            self.map@.subrange(0, self.position@ + 1).reverse()
        }
    }

    /// Yields the next entry, if one is left.
    pub fn next(&mut self) -> (item: Option<&'a MapEntry<K, V, C>>)
        requires
            old(self).wf(),
        ensures
            final(self).wf(),
            item is Some <==> old(self).remaining_items().len() > 0,
            match item {
                Some(entry) => {
                    &&& (entry.spec_key()@, entry.spec_value()) == old(self).remaining_items().first()
                    &&& final(self).remaining_items() == old(self).remaining_items().drop_first()
                },
                None => final(self).remaining_items() == old(self).remaining_items(),
            },
    {
        let map = self.map;
        let ghost order = map.order@;
        let ghost at = self.position@;
        if self.current < C {
            proof {
                assert(linked_at(map.data@, order, at));
            }
            match &map.data[self.current] {
                Slot::IsOccupiedBy(entry) => {
                    self.remaining -= 1;
                    if self.forward {
                        self.current = entry.next;
                        proof {
                            self.position@ = at + 1;
                        }
                    } else {
                        self.current = entry.prev;
                        proof {
                            self.position@ = at - 1;
                        }
                    }
                    Some(entry)
                },
                _ => None,
            }
        } else {
            None
        }
    }

    /// The number of entries left, as a lower and an upper bound.
    pub fn size_hint(&self) -> (hint: (usize, Option<usize>))
        requires
            self.wf(),
        ensures
            hint.0 == self.remaining_items().len(),
            hint.1 == Some(hint.0),
    {
        (self.remaining, Some(self.remaining))
    }

    /// The number of entries left.
    pub fn count(self) -> (count: usize)
        requires
            self.wf(),
        ensures
            count == self.remaining_items().len(),
    {
        self.remaining
    }
}

} // verus!
