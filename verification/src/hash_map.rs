use crate::check::{is_valid_capacity, valid_capacity};
use crate::errors::{InvalidCapacityError, OutOfCapacityError};
use crate::hash_map_internal::{FixedSizeHashMapImpl, MapIteratorImpl};
use crate::hashing::{KeyHasher, TableKey};
use crate::table_model::{
    put_fails, view_has_key, view_keys_distinct, view_position, view_put, view_take,
};
use std::hash::DefaultHasher;
use vstd::prelude::*;

verus! {

/// A map with room for `C` entries, which it yields in the order in which
/// they were last written.
pub struct FixedSizeHashMap<K, V, const C: usize, H = DefaultHasher> {
    hash_map_internal: FixedSizeHashMapImpl<K, V, C, H>,
}

impl<K: TableKey, V, const C: usize, H: KeyHasher<K>> FixedSizeHashMap<K, V, C, H> {
    /// The invariant of the map.
    pub closed spec fn wf(&self) -> bool {
        self.hash_map_internal.wf()
    }

    /// The entries, least recently written first, each key by its view.
    pub closed spec fn view(&self) -> Seq<(K::V, V)> {
        self.hash_map_internal@
    }

    /// A sound map holds at most `C` entries, and no key twice.
    pub proof fn lemma_view(&self)
        requires
            self.wf(),
        ensures
            valid_capacity(C),
            self@.len() <= C,
            view_keys_distinct(self@),
    {
        self.hash_map_internal.lemma_view();
    }

    /// An empty map, to stand where a map is asked for and none is at hand.
    pub fn placeholder() -> (map: Self)
        requires
            valid_capacity(C),
        ensures
            map.wf(),
            map@ == Seq::<(K::V, V)>::empty(),
    {
        Self::new()
    }

    pub fn new() -> (map: Self)
        requires
            valid_capacity(C),
        ensures
            map.wf(),
            map@ == Seq::<(K::V, V)>::empty(),
    {
        let map = FixedSizeHashMap { hash_map_internal: FixedSizeHashMapImpl::new() };
        assert(map@ =~= Seq::<(K::V, V)>::empty());
        map
    }

    /// An empty map, if `C` is a capacity that a map can have.
    pub fn try_new() -> (result: Result<Self, InvalidCapacityError>)
        ensures
            result is Ok <==> valid_capacity(C),
            match result {
                Ok(map) => map.wf() && map@ == Seq::<(K::V, V)>::empty(),
                Err(error) => error.capacity == C,
            },
    {
        if is_valid_capacity(C) {
            Ok(Self::new())
        } else {
            Err(InvalidCapacityError { capacity: C })
        }
    }

    /// Stores `value` under `key` and makes the entry the newest one. Returns
    /// the value that `key` had. Fails, and leaves the map as it was, when
    /// `key` is new and the map holds `C` entries.
    pub fn insert(&mut self, key: K, value: V) -> (result: Result<Option<V>, OutOfCapacityError>)
        requires
            old(self).wf(),
        ensures
            final(self).wf(),
            result is Err <==> put_fails(old(self)@, key@, C as int),
            match result {
                Ok(previous) => {
                    &&& final(self)@ == view_put(old(self)@, key@, value)
                    &&& final(self)@.last() == (key@, value)
                    &&& if view_has_key(old(self)@, key@) {
                        &&& previous == Some(old(self)@[view_position(old(self)@, key@)].1)
                        &&& final(self)@.len() == old(self)@.len()
                    } else {
                        &&& previous is None
                        &&& final(self)@.len() == old(self)@.len() + 1
                    }
                },
                Err(error) => error.capacity == C && final(self)@ == old(self)@,
            },
    {
        self.hash_map_internal.insert(key, value)
    }

    /// Where `key` is stored, lets `op` change its value in place, and the
    /// entry keeps its position. Where it is not, stores `value` under it.
    /// Fails as `insert` does.
    pub fn insert_or<F: FnOnce(&mut V)>(&mut self, key: K, value: V, op: F) -> (result: Result<
        (),
        OutOfCapacityError,
    >)
        requires
            old(self).wf(),
            view_has_key(old(self)@, key@) ==> forall|r: &mut V|
                *r == old(self)@[view_position(old(self)@, key@)].1 ==> op.requires((r,)),
        ensures
            final(self).wf(),
            result is Err <==> put_fails(old(self)@, key@, C as int),
            match result {
                Ok(_) => if view_has_key(old(self)@, key@) {
                    let at = view_position(old(self)@, key@);
                    exists|r: &mut V|
                        {
                            &&& *r == old(self)@[at].1
                            &&& #[trigger] op.ensures((r,), ())
                            &&& final(self)@ == old(self)@.update(at, (key@, *final(r)))
                        }
                } else {
                    final(self)@ == old(self)@.push((key@, value))
                },
                Err(error) => error.capacity == C && final(self)@ == old(self)@,
            },
    {
        proof {
            self.hash_map_internal.lemma_view();
        }
        if let Some(stored) = self.hash_map_internal.get_mut(&key) {
            op(stored);
            Ok(())
        } else {
            match self.hash_map_internal.insert(key, value) {
                Ok(_) => Ok(()),
                Err(error) => Err(error),
            }
        }
    }

    /// Whether `key` is stored.
    pub fn contains(&self, key: &K) -> (found: bool)
        requires
            self.wf(),
        ensures
            found == view_has_key(self@, key@),
    {
        self.hash_map_internal.contains(key)
    }

    /// The value stored under `key`.
    pub fn get(&self, key: &K) -> (value: Option<&V>)
        requires
            self.wf(),
        ensures
            value is Some <==> view_has_key(self@, key@),
            value is Some ==> *value->Some_0 == self@[view_position(self@, key@)].1,
    {
        self.hash_map_internal.get(key)
    }

    /// The value stored under `key`, to be changed in place. The entry keeps
    /// its position.
    pub fn get_mut(&mut self, key: &K) -> (value: Option<&mut V>)
        requires
            old(self).wf(),
        ensures
            value is Some <==> view_has_key(old(self)@, key@),
            value is None ==> *final(self) == *old(self),
            match value {
                Some(v) => {
                    let at = view_position(old(self)@, key@);
                    &&& *v == old(self)@[at].1
                    &&& final(self).wf()
                    &&& final(self)@ == old(self)@.update(at, (key@, *final(v)))
                },
                None => true,
            },
    {
        self.hash_map_internal.get_mut(key)
    }

    /// Removes `key` and returns its value. A key that is not stored is no
    /// error: nothing changes.
    pub fn remove(&mut self, key: &K) -> (removed: Option<V>)
        requires
            old(self).wf(),
        ensures
            final(self).wf(),
            removed is Some <==> view_has_key(old(self)@, key@),
            match removed {
                Some(value) => {
                    &&& value == old(self)@[view_position(old(self)@, key@)].1
                    &&& final(self)@.len() == old(self)@.len() - 1
                },
                None => final(self)@ == old(self)@,
            },
            final(self)@ == view_take(old(self)@, key@),
            !view_has_key(final(self)@, key@),
    {
        match self.hash_map_internal.remove(key) {
            Some(entry) => Some(entry.consume_self()),
            None => None,
        }
    }

    pub fn capacity(&self) -> (capacity: usize)
        ensures
            capacity == C,
    {
        C
    }

    /// The number of entries.
    pub fn size(&self) -> (size: usize)
        requires
            self.wf(),
        ensures
            size == self@.len(),
    {
        self.hash_map_internal.size()
    }

    /// The least recently written entry.
    pub fn head(&self) -> (entry: Option<(&K, &V)>)
        requires
            self.wf(),
        ensures
            entry is Some <==> self@.len() > 0,
            entry is Some ==> (entry->Some_0.0@, *entry->Some_0.1) == self@.first(),
    {
        match self.hash_map_internal.head() {
            Some(entry) => Some((entry.key(), entry.value())),
            None => None,
        }
    }

    /// The most recently written entry.
    pub fn tail(&self) -> (entry: Option<(&K, &V)>)
        requires
            self.wf(),
        ensures
            entry is Some <==> self@.len() > 0,
            entry is Some ==> (entry->Some_0.0@, *entry->Some_0.1) == self@.last(),
    {
        match self.hash_map_internal.tail() {
            Some(entry) => Some((entry.key(), entry.value())),
            None => None,
        }
    }

    /// An iterator over the entries, least recently written first.
    pub fn iter_head(&self) -> (iter: MapIter<'_, K, V, C, H>)
        requires
            self.wf(),
        ensures
            iter.wf(),
            iter.remaining_items() == self@,
    {
        MapIter { inner_iter: self.hash_map_internal.iter_head() }
    }

    /// An iterator over the entries, most recently written first.
    pub fn iter_tail(&self) -> (iter: MapIter<'_, K, V, C, H>)
        requires
            self.wf(),
        ensures
            iter.wf(),
            iter.remaining_items() == self@.reverse(),
    {
        MapIter { inner_iter: self.hash_map_internal.iter_tail() }
    }

    /// The value stored under `key`, which the caller knows to be stored, to
    /// be changed in place.
    pub fn index_mut(&mut self, key: &K) -> (value: &mut V)
        requires
            old(self).wf(),
            view_has_key(old(self)@, key@),
        ensures
            *value == old(self)@[view_position(old(self)@, key@)].1,
            final(self).wf(),
            final(self)@ == old(self)@.update(
                view_position(old(self)@, key@),
                (key@, *final(value)),
            ),
    {
        match self.get_mut(key) {
            Some(value) => value,
            None => vstd::pervasive::unreached(),
        }
    }
}

impl<K: TableKey, V, const C: usize, H: KeyHasher<K>> std::ops::Index<&K> for FixedSizeHashMap<K, V, C, H> {
    type Output = V;

    /// The value stored under `key`, which the caller knows to be stored.
    fn index(&self, key: &K) -> (value: &V)
        ensures
            *value == self@[view_position(self@, key@)].1,
    {
        match self.get(key) {
            Some(value) => value,
            None => vstd::pervasive::unreached(),
        }
    }
}

impl<K: TableKey, V, const C: usize, H: KeyHasher<K>> vstd::std_specs::core::IndexSpecImpl<&K> for FixedSizeHashMap<K, V, C, H> {
    open spec fn index_req(&self, key: &&K) -> bool {
        self.wf() && view_has_key(self@, key@)
    }
}

/// An iterator over the entries of a map.
pub struct MapIter<'a, K, V, const C: usize, H = DefaultHasher> {
    inner_iter: MapIteratorImpl<'a, K, V, C, H>,
}

impl<'a, K: TableKey, V, const C: usize, H: KeyHasher<K>> MapIter<'a, K, V, C, H> {
    pub closed spec fn wf(&self) -> bool {
        self.inner_iter.wf()
    }

    /// The entries that the iterator has yet to yield, in the order in which
    /// it yields them.
    pub closed spec fn remaining_items(&self) -> Seq<(K::V, V)> {
        self.inner_iter.remaining_items()
    }

    /// Yields the next entry, if one is left.
    pub fn next(&mut self) -> (item: Option<(&'a K, &'a V)>)
        requires
            old(self).wf(),
        ensures
            final(self).wf(),
            item is Some <==> old(self).remaining_items().len() > 0,
            match item {
                Some((key, value)) => {
                    &&& (key@, *value) == old(self).remaining_items().first()
                    &&& final(self).remaining_items() == old(self).remaining_items().drop_first()
                },
                None => final(self).remaining_items() == old(self).remaining_items(),
            },
    {
        match self.inner_iter.next() {
            Some(entry) => Some((entry.key(), entry.value())),
            None => None,
        }
    }

    /// The number of entries left, as a lower and an upper bound.
    pub fn size_hint(&self) -> (hint: (usize, Option<usize>))
        requires
            self.wf(),
        ensures
            hint.0 == self.remaining_items().len(),
            hint.1 == Some(hint.0),
    {
        self.inner_iter.size_hint()
    }

    /// The number of entries left.
    pub fn count(self) -> (count: usize)
        requires
            self.wf(),
        ensures
            count == self.remaining_items().len(),
    {
        self.inner_iter.count()
    }
}

} // verus!
