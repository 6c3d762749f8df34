use crate::hash_map_internal::Slot;
use vstd::prelude::*;

verus! {

/// Whether slot `i` is occupied by the key whose view is `key`.
pub open spec fn holds<KV, V>(slots: Seq<Slot<(KV, V)>>, i: int, key: KV) -> bool {
    &&& 0 <= i < slots.len()
    &&& slots[i] is IsOccupiedBy
    &&& slots[i]->IsOccupiedBy_0.0 == key
}

/// Whether some slot is occupied by `key`.
pub open spec fn has_key<KV, V>(slots: Seq<Slot<(KV, V)>>, key: KV) -> bool {
    exists|i: int| holds(slots, i, key)
}

/// The slot occupied by `key`, where there is one.
pub open spec fn slot_of<KV, V>(slots: Seq<Slot<(KV, V)>>, key: KV) -> int {
    choose|i: int| holds(slots, i, key)
}

/// No key occupies two slots.
pub open spec fn keys_distinct<KV, V>(slots: Seq<Slot<(KV, V)>>) -> bool {
    forall|i: int, j: int, key: KV|
        #[trigger] holds(slots, i, key) && #[trigger] holds(slots, j, key) ==> i == j
}

/// The slot that linear probing reaches `step` steps after `start`, in a
/// table of `capacity` slots.
pub open spec fn probe(start: int, step: int, capacity: int) -> int {
    if start + step < capacity {
        start + step
    } else {
        start + step - capacity
    }
}

/// The number of steps that linear probing takes from slot `from` to slot `to`.
pub open spec fn distance(from: int, to: int, capacity: int) -> int {
    if to >= from {
        to - from
    } else {
        to + capacity - from
    }
}

/// No slot that probing visits on its way from `home` to slot `i` is empty,
/// so that a search which starts at `home` does not stop before `i`.
pub open spec fn chain_ok<KV, V>(slots: Seq<Slot<(KV, V)>>, home: int, i: int) -> bool {
    forall|step: int|
        0 <= step < distance(home, i, slots.len() as int) ==> !(slots[#[trigger] probe(
            home,
            step,
            slots.len() as int,
        )] is Empty)
}

/// The first slot that is not occupied, from `step` steps after `start`
/// onwards in probing order; the number of slots if there is none.
pub open spec fn first_vacant<KV, V>(slots: Seq<Slot<(KV, V)>>, start: int, step: int) -> int
    decreases slots.len() - step,
{
    if step < 0 || step >= slots.len() {
        slots.len() as int
    } else if !(slots[probe(start, step, slots.len() as int)] is IsOccupiedBy) {
        probe(start, step, slots.len() as int)
    } else {
        first_vacant(slots, start, step + 1)
    }
}

/// `order` names occupied slots only, and none twice.
pub open spec fn listed<KV, V>(slots: Seq<Slot<(KV, V)>>, order: Seq<int>) -> bool {
    &&& order.no_duplicates()
    &&& forall|j: int|
        0 <= j < order.len() ==> 0 <= #[trigger] order[j] < slots.len()
            && slots[order[j]] is IsOccupiedBy
}

/// `order` lists the occupied slots, each once.
pub open spec fn order_ok<KV, V>(slots: Seq<Slot<(KV, V)>>, order: Seq<int>) -> bool {
    &&& listed(slots, order)
    &&& forall|i: int|
        0 <= i < slots.len() && (#[trigger] slots[i]) is IsOccupiedBy ==> order.contains(i)
}

/// A sequence of distinct numbers below `n` has at most `n` elements, and
/// holds every number below `n` if it has `n` of them.
pub proof fn lemma_order_bound(order: Seq<int>, n: int)
    requires
        0 <= n,
        order.no_duplicates(),
        forall|j: int| 0 <= j < order.len() ==> 0 <= #[trigger] order[j] < n,
    ensures
        order.len() <= n,
        order.len() == n ==> forall|i: int| 0 <= i < n ==> order.contains(i),
{
    let held = order.to_set();
    let all = vstd::set_lib::set_int_range(0, n);
    order.unique_seq_to_set();
    vstd::set_lib::lemma_int_range(0, n);
    vstd::set_lib::lemma_len_subset(held, all);
    if order.len() == n {
        vstd::set_lib::lemma_subset_equality(held, all);
        assert forall|i: int| 0 <= i < n implies order.contains(i) by {
            assert(all.contains(i));
        }
    }
}

/// A sequence of distinct numbers that holds every number below `n` has at
/// least `n` elements.
pub proof fn lemma_order_covers(order: Seq<int>, n: int)
    requires
        0 <= n,
        order.no_duplicates(),
        forall|i: int| 0 <= i < n ==> order.contains(i),
    ensures
        order.len() >= n,
{
    let held = order.to_set();
    let all = vstd::set_lib::set_int_range(0, n);
    order.unique_seq_to_set();
    vstd::set_lib::lemma_int_range(0, n);
    vstd::set_lib::lemma_len_subset(all, held);
}

/// Where every slot from `from` up to `at` steps after `start` is occupied
/// and the slot `at` steps after `start` is not, that slot is the first
/// vacant one.
pub proof fn lemma_first_vacant_at<KV, V>(
    slots: Seq<Slot<(KV, V)>>,
    start: int,
    from: int,
    at: int,
)
    requires
        0 <= start < slots.len(),
        0 <= from <= at < slots.len(),
        forall|s: int|
            from <= s < at ==> slots[#[trigger] probe(start, s, slots.len() as int)] is IsOccupiedBy,
        !(slots[probe(start, at, slots.len() as int)] is IsOccupiedBy),
    ensures
        first_vacant(slots, start, from) == probe(start, at, slots.len() as int),
    decreases at - from,
{
    if from < at {
        lemma_first_vacant_at(slots, start, from + 1, at);
    }
}

/// Where every slot from `from` steps after `start` onwards is occupied,
/// there is no vacant slot.
pub proof fn lemma_first_vacant_none<KV, V>(slots: Seq<Slot<(KV, V)>>, start: int, from: int)
    requires
        0 <= start < slots.len(),
        0 <= from <= slots.len(),
        forall|s: int|
            from <= s < slots.len() ==> slots[#[trigger] probe(
                start,
                s,
                slots.len() as int,
            )] is IsOccupiedBy,
    ensures
        first_vacant(slots, start, from) == slots.len(),
    decreases slots.len() - from,
{
    if from < slots.len() {
        lemma_first_vacant_none(slots, start, from + 1);
    }
}

/// Finds the step at which `first_vacant` stops: every slot before it is
/// occupied, and the slot at it is not, unless it is past the last step.
pub proof fn lemma_first_vacant_step<KV, V>(slots: Seq<Slot<(KV, V)>>, start: int, from: int) -> (at:
    int)
    requires
        0 <= start < slots.len(),
        0 <= from <= slots.len(),
    ensures
        from <= at <= slots.len(),
        forall|s: int|
            from <= s < at ==> slots[#[trigger] probe(start, s, slots.len() as int)] is IsOccupiedBy,
        at == slots.len() ==> first_vacant(slots, start, from) == slots.len(),
        at < slots.len() ==> first_vacant(slots, start, from) == probe(
            start,
            at,
            slots.len() as int,
        ) && !(slots[probe(start, at, slots.len() as int)] is IsOccupiedBy),
    decreases slots.len() - from,
{
    if from >= slots.len() {
        from
    } else if !(slots[probe(start, from, slots.len() as int)] is IsOccupiedBy) {
        from
    } else {
        lemma_first_vacant_step(slots, start, from + 1)
    }
}

/// Whether `view` has an entry for `key`.
pub open spec fn view_has_key<KV, V>(view: Seq<(KV, V)>, key: KV) -> bool {
    exists|j: int| 0 <= j < view.len() && (#[trigger] view[j]).0 == key
}

/// The position in `view` of the entry for `key`, where there is one.
pub open spec fn view_position<KV, V>(view: Seq<(KV, V)>, key: KV) -> int {
    choose|j: int| 0 <= j < view.len() && (#[trigger] view[j]).0 == key
}

/// No two entries of `view` have the same key.
pub open spec fn view_keys_distinct<KV, V>(view: Seq<(KV, V)>) -> bool {
    forall|a: int, b: int|
        0 <= a < view.len() && 0 <= b < view.len() && (#[trigger] view[a]).0 == (
        #[trigger] view[b]).0 ==> a == b
}

/// The entries after `value` was stored under `key`: the entry of `key`, if
/// there was one, is taken out, and the new entry is the last.
pub open spec fn view_put<KV, V>(view: Seq<(KV, V)>, key: KV, value: V) -> Seq<(KV, V)> {
    if view_has_key(view, key) {
        view.remove(view_position(view, key)).push((key, value))
    } else {
        view.push((key, value))
    }
}

/// The entries after `key` was removed.
pub open spec fn view_take<KV, V>(view: Seq<(KV, V)>, key: KV) -> Seq<(KV, V)> {
    if view_has_key(view, key) {
        view.remove(view_position(view, key))
    } else {
        view
    }
}

/// Whether a table of `capacity` slots with the entries `view` has no room
/// for `key`: the key is new, and every slot is taken.
pub open spec fn put_fails<KV, V>(view: Seq<(KV, V)>, key: KV, capacity: int) -> bool {
    !view_has_key(view, key) && view.len() >= capacity
}

/// The entries after each of `entries` was stored in turn, in a table of
/// `capacity` slots; one that finds no room is passed over.
pub open spec fn put_all<KV, V>(view: Seq<(KV, V)>, entries: Seq<(KV, V)>, capacity: int) -> Seq<
    (KV, V),
>
    decreases entries.len(),
{
    if entries.len() == 0 {
        view
    } else if put_fails(view, entries.last().0, capacity) {
        put_all(view, entries.drop_last(), capacity)
    } else {
        view_put(
            put_all(view, entries.drop_last(), capacity),
            entries.last().0,
            entries.last().1,
        )
    }
}

/// Storing a value under a key makes its entry the last one and leaves the
/// other entries as they were, in their order. The number of entries grows
/// by 1 if the key is new, and stays if it is not.
pub proof fn lemma_view_put<KV, V>(view: Seq<(KV, V)>, key: KV, value: V)
    requires
        view_keys_distinct(view),
    ensures
        view_keys_distinct(view_put(view, key, value)),
        view_put(view, key, value).last() == (key, value),
        view_put(view, key, value).len() == if view_has_key(view, key) {
            view.len()
        } else {
            view.len() + 1
        },
        view_has_key(view_put(view, key, value), key),
        view_position(view_put(view, key, value), key) == view_put(view, key, value).len() - 1,
        view_put(view, key, value).drop_last() == view_take(view, key),
        forall|other: KV|
            other != key ==> (view_has_key(view_put(view, key, value), other) <==> view_has_key(
                view,
                other,
            )),
        forall|other: KV| #[trigger]
            view_has_key(view, other) && other != key ==> view_put(view, key, value)[view_position(
                view_put(view, key, value),
                other,
            )] == view[view_position(view, other)],
{
    let after = view_put(view, key, value);
    let rest = view_take(view, key);
    lemma_view_take(view, key);
    assert(after =~= rest.push((key, value)));
    assert(after.drop_last() =~= rest);
    assert(after[after.len() - 1].0 == key);
    assert forall|a: int, b: int|
        0 <= a < after.len() && 0 <= b < after.len() && (#[trigger] after[a]).0 == (
        #[trigger] after[b]).0 implies a == b by {
        if a < rest.len() {
            assert(rest[a].0 == after[a].0);
            assert(view_has_key(rest, after[a].0));
        }
        if b < rest.len() {
            assert(rest[b].0 == after[b].0);
            assert(view_has_key(rest, after[b].0));
        }
    }
    let at = view_position(after, key);
    assert(after[at].0 == after[after.len() - 1].0);
    assert forall|other: KV| other != key implies (view_has_key(after, other) <==> view_has_key(
        view,
        other,
    )) by {
        if view_has_key(after, other) {
            let p = view_position(after, other);
            assert(after[p].0 == other);
            assert(rest[p].0 == other);
            assert(view_has_key(rest, other));
        }
        if view_has_key(view, other) {
            assert(view_has_key(rest, other));
            let p = view_position(rest, other);
            assert(rest[p].0 == other);
            assert(after[p].0 == other);
        }
    }
    assert forall|other: KV| #[trigger] view_has_key(view, other) && other != key implies after[view_position(
        after,
        other,
    )] == view[view_position(view, other)] by {
        assert(view_has_key(rest, other));
        let p = view_position(rest, other);
        assert(rest[p].0 == other);
        assert(after[p].0 == other);
        let q = view_position(after, other);
        assert(after[q].0 == other);
        assert(p == q);
    }
}

/// Removing a key takes its entry out and leaves the other entries as they
/// were, in their order. Where the key is not stored, nothing changes.
pub proof fn lemma_view_take<KV, V>(view: Seq<(KV, V)>, key: KV)
    requires
        view_keys_distinct(view),
    ensures
        view_keys_distinct(view_take(view, key)),
        !view_has_key(view_take(view, key), key),
        view_take(view, key).len() == if view_has_key(view, key) {
            view.len() - 1
        } else {
            view.len() as int
        },
        !view_has_key(view, key) ==> view_take(view, key) == view,
        forall|other: KV|
            other != key ==> (view_has_key(view_take(view, key), other) <==> view_has_key(
                view,
                other,
            )),
        forall|other: KV| #[trigger]
            view_has_key(view, other) && other != key ==> view_take(view, key)[view_position(
                view_take(view, key),
                other,
            )] == view[view_position(view, other)],
{
    let after = view_take(view, key);
    if view_has_key(view, key) {
        let at = view_position(view, key);
        assert forall|a: int, b: int|
            0 <= a < after.len() && 0 <= b < after.len() && (#[trigger] after[a]).0 == (
            #[trigger] after[b]).0 implies a == b by {}
        assert(!view_has_key(after, key));
        assert forall|other: KV| other != key implies (view_has_key(after, other)
            <==> view_has_key(view, other)) by {
            if view_has_key(view, other) {
                let p = view_position(view, other);
                let now = if p < at { p } else { p - 1 };
                assert(after[now].0 == other);
            }
        }
        assert forall|other: KV| #[trigger] view_has_key(view, other) && other != key implies after[view_position(
            after,
            other,
        )] == view[view_position(view, other)] by {}
    } else {
        assert forall|other: KV| #[trigger] view_has_key(view, other) && other != key implies after[view_position(
            after,
            other,
        )] == view[view_position(view, other)] by {}
    }
}

/// Entries with distinct keys, no more of them than the table has slots, are
/// all stored, and the table then holds them in the order in which they were
/// stored.
pub proof fn lemma_put_all<KV, V>(entries: Seq<(KV, V)>, capacity: int)
    requires
        view_keys_distinct(entries),
        entries.len() <= capacity,
    ensures
        put_all(Seq::<(KV, V)>::empty(), entries, capacity) == entries,
        forall|n: int|
            #![trigger entries.subrange(0, n)]
            0 <= n < entries.len() ==> !put_fails(
                put_all(Seq::<(KV, V)>::empty(), entries.subrange(0, n), capacity),
                entries[n].0,
                capacity,
            ),
    decreases entries.len(),
{
    let empty = Seq::<(KV, V)>::empty();
    if entries.len() > 0 {
        let front = entries.drop_last();
        let last = entries.last();
        lemma_put_all(front, capacity);
        assert(!view_has_key(front, last.0));
        assert forall|n: int|
            #![trigger entries.subrange(0, n)]
            0 <= n < entries.len() implies !put_fails(
            put_all(empty, entries.subrange(0, n), capacity),
            entries[n].0,
            capacity,
        ) by {
            if n < front.len() {
                assert(entries.subrange(0, n) =~= front.subrange(0, n));
            }
        }
    }
}

/// The state and key of `slot`, without the value.
pub open spec fn key_slot<KV, V>(slot: Slot<(KV, V)>) -> Slot<KV> {
    match slot {
        Slot::Empty => Slot::Empty,
        Slot::WasOccupied => Slot::WasOccupied,
        Slot::IsOccupiedBy(entry) => Slot::IsOccupiedBy(entry.0),
    }
}

/// The states and keys of `slots`, without the values.
pub open spec fn key_slots<KV, V>(slots: Seq<Slot<(KV, V)>>) -> Seq<Slot<KV>> {
    slots.map_values(|slot: Slot<(KV, V)>| key_slot(slot))
}

/// Two slot arrays with the same states and keys have their first vacant
/// slot at the same place.
pub proof fn lemma_same_vacancy<KV, A, B>(
    a: Seq<Slot<(KV, A)>>,
    b: Seq<Slot<(KV, B)>>,
    start: int,
    step: int,
)
    requires
        key_slots(a) == key_slots(b),
        0 <= start < a.len(),
    ensures
        first_vacant(a, start, step) == first_vacant(b, start, step),
    decreases a.len() - step,
{
    assert(a.len() == key_slots(a).len());
    if 0 <= step < a.len() {
        let i = probe(start, step, a.len() as int);
        assert(key_slot(a[i]) == key_slots(a)[i]);
        if a[i] is IsOccupiedBy {
            lemma_same_vacancy(a, b, start, step + 1);
        }
    }
}

/// Two slot arrays with the same states and keys hold the same keys in the
/// same slots.
pub proof fn lemma_same_keys<KV, A, B>(a: Seq<Slot<(KV, A)>>, b: Seq<Slot<(KV, B)>>)
    requires
        key_slots(a) == key_slots(b),
        keys_distinct(a),
    ensures
        a.len() == b.len(),
        keys_distinct(b),
        forall|i: int, key: KV| holds(a, i, key) <==> holds(b, i, key),
        forall|key: KV| has_key(a, key) <==> has_key(b, key),
        forall|key: KV| #[trigger] has_key(a, key) ==> slot_of(a, key) == slot_of(b, key),
        forall|i: int| 0 <= i < a.len() ==> ((#[trigger] a[i]) is IsOccupiedBy <==> b[i] is IsOccupiedBy),
{
    assert(a.len() == key_slots(a).len());
    assert forall|i: int, key: KV| holds(a, i, key) <==> holds(b, i, key) by {
        if 0 <= i < a.len() {
            assert(key_slot(a[i]) == key_slots(a)[i]);
        }
    }
    assert forall|i: int| 0 <= i < a.len() implies ((#[trigger] a[i]) is IsOccupiedBy
        <==> b[i] is IsOccupiedBy) by {
        assert(key_slot(a[i]) == key_slots(a)[i]);
    }
    assert forall|key: KV| has_key(a, key) <==> has_key(b, key) by {}
}

/// A table with fewer entries than slots has a vacant slot on every probing
/// path.
pub proof fn lemma_vacancy<KV, V>(slots: Seq<Slot<(KV, V)>>, order: Seq<int>, start: int)
    requires
        order_ok(slots, order),
        0 <= start < slots.len(),
        order.len() < slots.len(),
    ensures
        0 <= first_vacant(slots, start, 0) < slots.len(),
        !(slots[first_vacant(slots, start, 0)] is IsOccupiedBy),
{
    let capacity = slots.len() as int;
    let at = lemma_first_vacant_step(slots, start, 0);
    if at == capacity {
        assert forall|i: int| 0 <= i < capacity implies order.contains(i) by {
            let d = distance(start, i, capacity);
            assert(probe(start, d, capacity) == i);
        }
        lemma_order_covers(order, capacity);
    }
}

} // verus!
