use crate::check::{is_valid_capacity, valid_capacity};
use crate::errors::{InvalidCapacityError, OutOfCapacityError};
use crate::hash_map_internal::{FixedSizeHashMapImpl, MapIteratorImpl};
use crate::hashing::{KeyHasher, TableKey};
use crate::table_model::{view_has_key, view_position};
use std::hash::DefaultHasher;
use vstd::prelude::*;

verus! {

/// The keys of `entries`, in the same order.
pub open spec fn keys_of<KV>(entries: Seq<(KV, ())>) -> Seq<KV> {
    entries.map_values(|entry: (KV, ())| entry.0)
}

/// A set with room for `C` items, which it yields in the order in which they
/// were inserted.
pub struct FixedSizeHashSet<T, const C: usize, H = DefaultHasher> {
    hash_map_internal: FixedSizeHashMapImpl<T, (), C, H>,
}

impl<T: TableKey, const C: usize, H: KeyHasher<T>> FixedSizeHashSet<T, C, H> {
    /// The invariant of the set.
    pub closed spec fn wf(&self) -> bool {
        self.hash_map_internal.wf()
    }

    /// The items, oldest first, each by its view.
    pub closed spec fn view(&self) -> Seq<T::V> {
        keys_of(self.hash_map_internal@)
    }

    /// A sound set holds at most `C` items, and none twice.
    pub proof fn lemma_view(&self)
        requires
            self.wf(),
        ensures
            valid_capacity(C),
            self@.len() <= C,
            self@.no_duplicates(),
    {
        self.hash_map_internal.lemma_view();
    }

    /// An item is in the set exactly when the table has it as a key, and at
    /// the same position.
    proof fn lemma_keys(&self, item: T::V)
        requires
            self.wf(),
        ensures
            self@.contains(item) <==> view_has_key(self.hash_map_internal@, item),
            self@.contains(item) ==> self@.index_of(item) == view_position(
                self.hash_map_internal@,
                item,
            ),
    {
        self.hash_map_internal.lemma_view();
        let entries = self.hash_map_internal@;
        if view_has_key(entries, item) {
            let at = view_position(entries, item);
            assert(self@[at] == item);
        }
    }

    /// An empty set, to stand where a set is asked for and none is at hand.
    pub fn placeholder() -> (set: Self)
        requires
            valid_capacity(C),
        ensures
            set.wf(),
            set@ == Seq::<T::V>::empty(),
    {
        Self::new()
    }

    pub fn new() -> (set: Self)
        requires
            valid_capacity(C),
        ensures
            set.wf(),
            set@ == Seq::<T::V>::empty(),
    {
        let set = FixedSizeHashSet { hash_map_internal: FixedSizeHashMapImpl::new() };
        set
    }

    /// An empty set, if `C` is a capacity that a set can have.
    pub fn try_new() -> (result: Result<Self, InvalidCapacityError>)
        ensures
            result is Ok <==> valid_capacity(C),
            match result {
                Ok(set) => set.wf() && set@ == Seq::<T::V>::empty(),
                Err(error) => error.capacity == C,
            },
    {
        if is_valid_capacity(C) {
            Ok(Self::new())
        } else {
            Err(InvalidCapacityError { capacity: C })
        }
    }

    /// Adds `item` as the newest item and returns `true`; returns `false`,
    /// and changes nothing, where the set has it already. Fails, and changes
    /// nothing, when `item` is new and the set holds `C` items.
    pub fn insert(&mut self, item: T) -> (result: Result<bool, OutOfCapacityError>)
        requires
            old(self).wf(),
        ensures
            final(self).wf(),
            result is Err <==> !old(self)@.contains(item@) && old(self)@.len() == C,
            match result {
                Ok(added) => {
                    &&& added == !old(self)@.contains(item@)
                    &&& final(self)@ == if added {
                        old(self)@.push(item@)
                    } else {
                        old(self)@
                    }
                },
                Err(error) => error.capacity == C && final(self)@ == old(self)@,
            },
    {
        proof {
            self.lemma_keys(item@);
        }
        match self.hash_map_internal.contains(&item) {
            true => Ok(false),
            false => {
                match self.hash_map_internal.insert_get_index(item, ()) {
                    Ok(_) => {
                        Ok(true)
                    },
                    Err(error) => Err(error),
                }
            },
        }
    }

    /// The slot that an insertion of `item` writes to.
    spec fn insert_slot(set: &Self, item: T::V) -> int {
        FixedSizeHashMapImpl::<T, (), C, H>::spec_insert_slot(set.hash_map_internal.slots(), item)
    }

    /// Whether `item` is in the set.
    pub fn contains(&self, item: &T) -> (found: bool)
        requires
            self.wf(),
        ensures
            found == self@.contains(item@),
    {
        proof {
            self.lemma_keys(item@);
        }
        self.hash_map_internal.contains(item)
    }

    /// Removes `item` and returns `true`; returns `false`, and changes
    /// nothing, where the set does not have it.
    pub fn remove(&mut self, item: &T) -> (removed: bool)
        requires
            old(self).wf(),
        ensures
            final(self).wf(),
            removed == old(self)@.contains(item@),
            final(self)@ == if removed {
                old(self)@.remove(old(self)@.index_of(item@))
            } else {
                old(self)@
            },
    {
        proof {
            self.lemma_keys(item@);
        }
        match self.hash_map_internal.contains(item) {
            false => false,
            true => {
                let _ = self.hash_map_internal.remove(item);
                true
            },
        }
    }

    pub fn capacity(&self) -> (capacity: usize)
        ensures
            capacity == C,
    {
        C
    }

    /// The number of items.
    pub fn size(&self) -> (size: usize)
        requires
            self.wf(),
        ensures
            size == self@.len(),
    {
        self.hash_map_internal.size()
    }

    /// The oldest item.
    pub fn head(&self) -> (item: Option<&T>)
        requires
            self.wf(),
        ensures
            item is Some <==> self@.len() > 0,
            item is Some ==> item->Some_0@ == self@.first(),
    {
        match self.hash_map_internal.head() {
            Some(entry) => Some(entry.key()),
            None => None,
        }
    }

    /// The newest item.
    pub fn tail(&self) -> (item: Option<&T>)
        requires
            self.wf(),
        ensures
            item is Some <==> self@.len() > 0,
            item is Some ==> item->Some_0@ == self@.last(),
    {
        match self.hash_map_internal.tail() {
            Some(entry) => Some(entry.key()),
            None => None,
        }
    }

    /// An iterator over the items, oldest first.
    pub fn iter_head(&self) -> (iter: SetIter<'_, T, C, H>)
        requires
            self.wf(),
        ensures
            iter.wf(),
            iter.remaining_items() == self@,
    {
        SetIter { inner_iter: self.hash_map_internal.iter_head() }
    }

    /// An iterator over the items, newest first.
    pub fn iter_tail(&self) -> (iter: SetIter<'_, T, C, H>)
        requires
            self.wf(),
        ensures
            iter.wf(),
            iter.remaining_items() == self@.reverse(),
    {
        let iter = SetIter { inner_iter: self.hash_map_internal.iter_tail() };
        iter
    }
}

/// An iterator over the items of a set.
pub struct SetIter<'a, T, const C: usize, H = DefaultHasher> {
    inner_iter: MapIteratorImpl<'a, T, (), C, H>,
}

impl<'a, T: TableKey, const C: usize, H: KeyHasher<T>> SetIter<'a, T, C, H> {
    pub closed spec fn wf(&self) -> bool {
        self.inner_iter.wf()
    }

    /// The items that the iterator has yet to yield, in the order in which it
    /// yields them.
    pub closed spec fn remaining_items(&self) -> Seq<T::V> {
        keys_of(self.inner_iter.remaining_items())
    }

    /// Yields the next item, if one is left.
    pub fn next(&mut self) -> (item: Option<&'a T>)
        requires
            old(self).wf(),
        ensures
            final(self).wf(),
            item is Some <==> old(self).remaining_items().len() > 0,
            match item {
                Some(key) => {
                    &&& key@ == old(self).remaining_items().first()
                    &&& final(self).remaining_items() == old(self).remaining_items().drop_first()
                },
                None => final(self).remaining_items() == old(self).remaining_items(),
            },
    {
        match self.inner_iter.next() {
            Some(entry) => {
                Some(entry.key())
            },
            None => None,
        }
    }

    /// The number of items left, as a lower and an upper bound.
    pub fn size_hint(&self) -> (hint: (usize, Option<usize>))
        requires
            self.wf(),
        ensures
            hint.0 == self.remaining_items().len(),
            hint.1 == Some(hint.0),
    {
        self.inner_iter.size_hint()
    }

    /// The number of items left.
    pub fn count(self) -> (count: usize)
        requires
            self.wf(),
        ensures
            count == self.remaining_items().len(),
    {
        self.inner_iter.count()
    }
}

} // verus!
