use crate::check::{is_valid_capacity, lemma_prime_by_trial, valid_capacity};
use crate::errors::{InvalidCapacityError, OutOfCapacityError};
use crate::graph_model::{
    lemma_connect_ok, lemma_connect_weight, lemma_detach_ok, lemma_disconnect_ok,
    lemma_disconnect_weight, lemma_no_edge_at_free_slot, lemma_sever_in, lemma_sever_ok,
    lemma_sever_out, GraphView, MAX_EDGES,
};
use crate::hash_map::{FixedSizeHashMap, MapIter};
use crate::hash_map_internal::{FixedSizeHashMapImpl, MapEntry, Slot};
use crate::hash_set::FixedSizeHashSet;
use crate::hashing::{KeyHasher, TableKey};
use crate::table_model::{
    has_key, holds, key_slot, key_slots, keys_distinct, lemma_same_keys, lemma_vacancy,
    order_ok, slot_of, view_has_key, view_position,
};
use std::hash::DefaultHasher;
use vstd::prelude::*;

verus! {

/// The edges that leave a node: for each target slot, how often the edge was
/// made.
pub type OutEdges = FixedSizeHashMap<usize, u32, MAX_EDGES>;

/// The slots of the nodes from which an edge enters a node.
pub type InEdges = FixedSizeHashSet<usize, MAX_EDGES>;

/// `MAX_EDGES` is a capacity that the edge containers can have.
pub proof fn lemma_max_edges_valid()
    ensures
        valid_capacity(MAX_EDGES),
{
    assert(151int % 2 != 0 && 151int % 3 != 0 && 151int % 4 != 0 && 151int % 5 != 0);
    assert(151int % 6 != 0 && 151int % 7 != 0 && 151int % 8 != 0 && 151int % 9 != 0);
    assert(151int % 10 != 0 && 151int % 11 != 0 && 151int % 12 != 0 && 151int % 13 != 0);
    lemma_prime_by_trial(151, 13);
}

/// What the graph stores for a node besides its key: the node's value and
/// the edges that leave and enter it.
pub struct NodeEntry<V> {
    pub(crate) value: V,
    pub(crate) out_edges: OutEdges,
    pub(crate) in_edges: InEdges,
}

impl<V> NodeEntry<V> {
    pub(crate) fn new(value: V) -> (node: Self)
        ensures
            node.value == value,
            node.out_edges.wf(),
            node.out_edges@ == Seq::<(usize, u32)>::empty(),
            node.in_edges.wf(),
            node.in_edges@ == Seq::<usize>::empty(),
    {
        proof {
            lemma_max_edges_valid();
        }
        NodeEntry { value, out_edges: OutEdges::new(), in_edges: InEdges::new() }
    }

    pub closed spec fn spec_value(&self) -> V {
        self.value
    }

    /// The node's value.
    pub fn value(&self) -> (value: &V)
        ensures
            *value == self.spec_value(),
    {
        &self.value
    }
}

/// A graph with room for `C` nodes. Edges are kept by the slots of their
/// ends, at both ends, with the number of times each was made as its weight.
pub struct FixedSizeHashGraphImpl<K, V, const C: usize, H> {
    hash_map: FixedSizeHashMapImpl<K, NodeEntry<V>, C, H>,
    empty_out_edges: OutEdges,
}

/// A graph that hashes its keys with the standard hasher.
pub type FixedSizeHashGraphMap<K, V, const C: usize> = FixedSizeHashGraphImpl<K, V, C, DefaultHasher>;

/// The key and value of the node in `slot`.
pub closed spec fn node_slot<KV, V>(slot: Slot<(KV, NodeEntry<V>)>) -> Slot<(KV, V)> {
    match slot {
        Slot::Empty => Slot::Empty,
        Slot::WasOccupied => Slot::WasOccupied,
        Slot::IsOccupiedBy(entry) => Slot::IsOccupiedBy((entry.0, entry.1.value)),
    }
}

/// The edges that leave the node in `slot`.
pub closed spec fn out_of<KV, V>(slot: Slot<(KV, NodeEntry<V>)>) -> Seq<(usize, u32)> {
    match slot {
        Slot::IsOccupiedBy(entry) => entry.1.out_edges@,
        _ => Seq::empty(),
    }
}

/// The slots from which an edge enters the node in `slot`.
pub closed spec fn in_of<KV, V>(slot: Slot<(KV, NodeEntry<V>)>) -> Seq<usize> {
    match slot {
        Slot::IsOccupiedBy(entry) => entry.1.in_edges@,
        _ => Seq::empty(),
    }
}

impl<K: TableKey, V, const C: usize, H: KeyHasher<K>> FixedSizeHashGraphImpl<K, V, C, H> {
    /// The state of the graph.
    pub closed spec fn view(&self) -> GraphView<K::V, V> {
        GraphView {
            slots: self.hash_map.slots().map_values(
                |slot: Slot<(K::V, NodeEntry<V>)>| node_slot(slot),
            ),
            order: self.hash_map.order(),
            out_edges: self.hash_map.slots().map_values(
                |slot: Slot<(K::V, NodeEntry<V>)>| out_of(slot),
            ),
            in_edges: self.hash_map.slots().map_values(
                |slot: Slot<(K::V, NodeEntry<V>)>| in_of(slot),
            ),
        }
    }

    /// The table of nodes and the edge containers of each node are sound.
    pub closed spec fn containers_ok(&self) -> bool {
        &&& self.hash_map.wf()
        &&& self.empty_out_edges.wf()
        &&& self.empty_out_edges@.len() == 0
        &&& forall|i: int|
            0 <= i < C && (#[trigger] self.hash_map.slots()[i]) is IsOccupiedBy ==> {
                &&& self.hash_map.slots()[i]->IsOccupiedBy_0.1.out_edges.wf()
                &&& self.hash_map.slots()[i]->IsOccupiedBy_0.1.in_edges.wf()
            }
    }

    /// What holds of the state of every graph: it has `C` slots, no key
    /// twice, its order lists the occupied slots, and its edges are sound.
    pub open spec fn view_ok(g: GraphView<K::V, V>) -> bool {
        &&& valid_capacity(C)
        &&& g.slots.len() == C
        &&& keys_distinct(g.slots)
        &&& order_ok(g.slots, g.order)
        &&& g.edges_ok()
    }

    /// The invariant of the graph.
    pub open spec fn wf(&self) -> bool {
        &&& self.containers_ok()
        &&& Self::view_ok(self@)
    }

    /// What the view says of the table follows from the table's invariant.
    proof fn lemma_table(&self)
        requires
            self.hash_map.wf(),
        ensures
            self@.slots.len() == C,
            self@.out_edges.len() == C,
            self@.in_edges.len() == C,
            key_slots(self@.slots) == key_slots(self.hash_map.slots()),
            keys_distinct(self@.slots),
            order_ok(self@.slots, self@.order),
            forall|i: int, key: K::V| holds(self@.slots, i, key) <==> holds(self.hash_map.slots(), i, key),
            forall|key: K::V| has_key(self@.slots, key) <==> has_key(self.hash_map.slots(), key),
            forall|key: K::V| #[trigger]
                has_key(self@.slots, key) ==> slot_of(self@.slots, key) == slot_of(
                    self.hash_map.slots(),
                    key,
                ),
            forall|i: int|
                0 <= i < C ==> ((#[trigger] self@.slots[i]) is IsOccupiedBy
                    <==> self.hash_map.slots()[i] is IsOccupiedBy),
            forall|i: int|
                0 <= i < C ==> (#[trigger] self@.slots[i]) == node_slot(self.hash_map.slots()[i]),
            forall|i: int|
                0 <= i < C ==> (#[trigger] self@.out_edges[i]) == out_of(self.hash_map.slots()[i]),
            forall|i: int|
                0 <= i < C ==> (#[trigger] self@.in_edges[i]) == in_of(self.hash_map.slots()[i]),
    {
        let table = self.hash_map.slots();
        let slots = self@.slots;
        assert(key_slots(slots) =~= key_slots(table)) by {
            assert forall|i: int| 0 <= i < C implies key_slots(slots)[i] == key_slots(table)[i] by {}
        }
        lemma_same_keys(table, slots);
    }

    pub fn new() -> (graph: Self)
        requires
            valid_capacity(C),
        ensures
            graph.wf(),
            graph@ == GraphView::<K::V, V>::empty(C as nat),
    {
        proof {
            lemma_max_edges_valid();
        }
        let graph = FixedSizeHashGraphImpl {
            hash_map: FixedSizeHashMapImpl::new(),
            empty_out_edges: OutEdges::placeholder(),
        };
        graph
    }

    /// An empty graph, if `C` is a capacity that a graph can have.
    pub fn try_new() -> (result: Result<Self, InvalidCapacityError>)
        ensures
            result is Ok <==> valid_capacity(C),
            match result {
                Ok(graph) => graph.wf() && graph@ == GraphView::<K::V, V>::empty(C as nat),
                Err(error) => error.capacity == C,
            },
    {
        if is_valid_capacity(C) {
            Ok(Self::new())
        } else {
            Err(InvalidCapacityError { capacity: C })
        }
    }

    pub fn capacity(&self) -> (capacity: usize)
        ensures
            capacity == C,
    {
        C
    }

    /// The number of nodes.
    pub fn size(&self) -> (size: usize)
        requires
            self.wf(),
        ensures
            size == self@.order.len(),
    {
        self.hash_map.size()
    }

    /// What the graph stores in the occupied slot `i`.
    fn node_at(&self, i: usize) -> (node: &NodeEntry<V>)
        requires
            self.hash_map.wf(),
            i < C,
            self.hash_map.slots()[i as int] is IsOccupiedBy,
        ensures
            *node == self.hash_map.slots()[i as int]->IsOccupiedBy_0.1,
    {
        match self.hash_map.get_entry_at(i) {
            Some(entry) => entry.value(),
            None => vstd::pervasive::unreached(),
        }
    }

    /// Connects the node in slot `index` to the node in slot `to_index` once
    /// more.
    fn connect_slots(&mut self, index: usize, to_index: usize)
        requires
            old(self).wf(),
            index < C,
            to_index < C,
            old(self)@.slots[index as int] is IsOccupiedBy,
            old(self)@.slots[to_index as int] is IsOccupiedBy,
        ensures
            final(self).wf(),
            final(self)@ == old(self)@.connect(index as int, to_index as int),
    {
        let ghost before = self@;
        proof {
            self.lemma_table();
            lemma_connect_ok(before, index as int, to_index as int);
        }
        if index == to_index {
            return ;
        }
        let has_edge = self.node_at(index).out_edges.contains(&to_index);
        if has_edge {
            let node = self.hash_map.value_mut_at(index);
            let weight = node.out_edges.index_mut(&to_index);
            if *weight < u32::MAX {
                *weight += 1;
            }
            proof {
                self.lemma_table();
                let after = before.connect(index as int, to_index as int);
                assert forall|i: int| 0 <= i < C implies #[trigger] self@.slots[i] == after.slots[i] by {}
                assert forall|i: int| 0 <= i < C implies #[trigger] self@.out_edges[i]
                    == after.out_edges[i] by {}
                assert forall|i: int| 0 <= i < C implies #[trigger] self@.in_edges[i]
                    == after.in_edges[i] by {}
            }
        } else {
            let has_room = self.node_at(index).out_edges.size() < MAX_EDGES && self.node_at(
                to_index,
            ).in_edges.size() < MAX_EDGES;
            if has_room {
                let node = self.hash_map.value_mut_at(index);
                let _ = node.out_edges.insert(to_index, 1);
                let to_node = self.hash_map.value_mut_at(to_index);
                let _ = to_node.in_edges.insert(index);
                proof {
                    self.lemma_table();
                    let after = before.connect(index as int, to_index as int);
                    assert forall|i: int| 0 <= i < C implies #[trigger] self@.out_edges[i]
                        == after.out_edges[i] by {}
                    assert forall|i: int| 0 <= i < C implies #[trigger] self@.in_edges[i]
                        == after.in_edges[i] by {}
                }
            }
        }
    }

    /// The view after the table changed from `table`, if slot by slot it
    /// shows what `after` shows.
    proof fn lemma_view_is(&self, after: GraphView<K::V, V>)
        requires
            self.hash_map.wf(),
            after.slots.len() == C,
            after.out_edges.len() == C,
            after.in_edges.len() == C,
            after.order == self.hash_map.order(),
            forall|i: int|
                0 <= i < C ==> #[trigger] after.slots[i] == node_slot(self.hash_map.slots()[i]),
            forall|i: int|
                0 <= i < C ==> #[trigger] after.out_edges[i] == out_of(self.hash_map.slots()[i]),
            forall|i: int|
                0 <= i < C ==> #[trigger] after.in_edges[i] == in_of(self.hash_map.slots()[i]),
        ensures
            self@ == after,
            keys_distinct(self@.slots),
            order_ok(self@.slots, self@.order),
    {
        self.lemma_table();
    }

    /// Severs the edge from the node in slot `index` to slot `to_index`.
    fn sever_slots(&mut self, index: usize, to_index: usize)
        requires
            old(self).wf(),
            index < C,
            old(self)@.slots[index as int] is IsOccupiedBy,
        ensures
            final(self).wf(),
            final(self)@ == old(self)@.sever(index as int, to_index as int),
    {
        let ghost before = self@;
        proof {
            self.lemma_table();
            lemma_sever_ok(before, index as int, to_index as int);
        }
        let has_edge = self.node_at(index).out_edges.contains(&to_index);
        if has_edge {
            let node = self.hash_map.value_mut_at(index);
            let _ = node.out_edges.remove(&to_index);
            let to_node = self.hash_map.value_mut_at(to_index);
            let _ = to_node.in_edges.remove(&index);
            proof {
                let after = before.sever(index as int, to_index as int);
                self.lemma_view_is(after);
            }
        }
    }

    /// Takes 1 from the weight of the edge from the node in slot `index` to
    /// slot `to_index`, and severs the edge if its weight was 1.
    fn disconnect_slots(&mut self, index: usize, to_index: usize)
        requires
            old(self).wf(),
            index < C,
            old(self)@.slots[index as int] is IsOccupiedBy,
        ensures
            final(self).wf(),
            final(self)@ == old(self)@.disconnect(index as int, to_index as int),
    {
        let ghost before = self@;
        proof {
            self.lemma_table();
            lemma_disconnect_ok(before, index as int, to_index as int);
        }
        let weight = match self.node_at(index).out_edges.get(&to_index) {
            Some(weight) => *weight,
            None => 0,
        };
        if weight == 1 {
            self.sever_slots(index, to_index);
        } else if weight > 1 {
            let node = self.hash_map.value_mut_at(index);
            let stored = node.out_edges.index_mut(&to_index);
            *stored -= 1;
            proof {
                let after = before.disconnect(index as int, to_index as int);
                self.lemma_view_is(after);
            }
        }
    }

    /// Whether the graph can take a node with the key `key`: it has the
    /// node, or room for one more.
    pub open spec fn can_take(g: GraphView<K::V, V>, key: K::V) -> bool {
        has_key(g.slots, key) || g.order.len() < C
    }

    /// The graph after the node `key` was written with `value`: a node that
    /// exists gets the value, keeps its slot and its edges, and becomes the
    /// newest; a new node takes the slot that the table gives it.
    pub open spec fn with_node(g: GraphView<K::V, V>, key: K::V, value: V) -> GraphView<K::V, V> {
        let i = FixedSizeHashMapImpl::<K, V, C, H>::spec_insert_slot(g.slots, key);
        if has_key(g.slots, key) {
            GraphView {
                slots: g.slots.update(i, Slot::IsOccupiedBy((key, value))),
                order: g.order.remove(g.order.index_of(i)).push(i),
                ..g
            }
        } else if g.order.len() < C {
            GraphView {
                slots: g.slots.update(i, Slot::IsOccupiedBy((key, value))),
                order: g.order.push(i),
                ..g
            }
        } else {
            g
        }
    }

    /// Writes the node `key` with `value` and returns its slot.
    fn upsert_node(&mut self, key: K, value: V) -> (result: Result<usize, OutOfCapacityError>)
        requires
            old(self).wf(),
        ensures
            final(self).wf(),
            result is Err <==> !Self::can_take(old(self)@, key@),
            match result {
                Ok(i) => {
                    &&& i < C
                    &&& holds(final(self)@.slots, i as int, key@)
                    &&& final(self)@ == Self::with_node(old(self)@, key@, value)
                },
                Err(error) => error.capacity == C && final(self)@ == old(self)@,
            },
    {
        let ghost before = self@;
        let ghost table = self.hash_map.slots();
        let ghost after = Self::with_node(before, key@, value);
        proof {
            self.lemma_table();
            self.hash_map.lemma_full();
            FixedSizeHashMapImpl::<K, NodeEntry<V>, C, H>::lemma_same_probing(
                table,
                before.slots,
                key@,
            );
            Self::lemma_with_node_ok(before, key@, value);
        }
        match self.hash_map.get_index_of(&key) {
            Some(i) => {
                let node = self.hash_map.value_mut_at(i);
                node.value = value;
                self.hash_map.move_to_back(i);
                proof {
                    self.lemma_view_is(after);
                }
                Ok(i)
            },
            None => {
                match self.hash_map.insert_get_index(key, NodeEntry::new(value)) {
                    Ok((i, _)) => {
                        proof {
                            self.lemma_view_is(after);
                        }
                        Ok(i)
                    },
                    Err(error) => Err(error),
                }
            },
        }
    }

    /// Writing a node keeps the edges sound.
    pub proof fn lemma_with_node_ok(g: GraphView<K::V, V>, key: K::V, value: V)
        requires
            g.edges_ok(),
            valid_capacity(C),
            g.slots.len() == C,
            keys_distinct(g.slots),
            order_ok(g.slots, g.order),
        ensures
            Self::with_node(g, key, value).edges_ok(),
            Self::can_take(g, key) ==> holds(
                Self::with_node(g, key, value).slots,
                FixedSizeHashMapImpl::<K, V, C, H>::spec_insert_slot(g.slots, key),
                key,
            ),
    {
        let after = Self::with_node(g, key, value);
        let i = FixedSizeHashMapImpl::<K, V, C, H>::spec_insert_slot(g.slots, key);
        if has_key(g.slots, key) {
            assert(holds(g.slots, i, key));
        } else if g.order.len() < C {
            lemma_vacancy(g.slots, g.order, FixedSizeHashMapImpl::<K, V, C, H>::home(key));
        }
        if after != g {
            assert forall|x: int| 0 <= x < C && (#[trigger] g.slots[x]) is IsOccupiedBy implies after.slots[x] is IsOccupiedBy by {}
            assert forall|x: int, j: int|
                0 <= x < after.slots.len() && 0 <= j < after.out_edges[x].len() implies after.edge_ok(
                x,
                #[trigger] after.out_edges[x][j],
            ) by {
                let edge = g.out_edges[x][j];
                assert(g.slots[edge.0 as int] is IsOccupiedBy);
            }
            assert forall|v: int, j: int|
                0 <= v < after.slots.len() && 0 <= j < after.in_edges[v].len() implies after.source_ok(
                v,
                #[trigger] after.in_edges[v][j],
            ) by {
                let source = g.in_edges[v][j];
                assert(g.slots[source as int] is IsOccupiedBy);
            }
        }
    }

    /// The keys of `pairs` by their views, each with its value.
    pub open spec fn pairs_view(pairs: Seq<(K, V)>) -> Seq<(K::V, V)> {
        pairs.map_values(|pair: (K, V)| (pair.0@, pair.1))
    }

    /// The views of `keys`.
    pub open spec fn keys_view(keys: Seq<&K>) -> Seq<K::V> {
        keys.map_values(|key: &K| key@)
    }

    /// The graph after each of `connections` was written as a node and
    /// connected from slot `index`, in turn, and whether all of them could
    /// be written. The work ends at the first that the graph cannot take.
    pub open spec fn insert_all(
        g: GraphView<K::V, V>,
        index: int,
        connections: Seq<(K::V, V)>,
    ) -> (GraphView<K::V, V>, bool)
        decreases connections.len(),
    {
        if connections.len() == 0 {
            (g, true)
        } else if !Self::can_take(g, connections[0].0) {
            (g, false)
        } else {
            let written = Self::with_node(g, connections[0].0, connections[0].1);
            let to_index = slot_of(written.slots, connections[0].0);
            Self::insert_all(written.connect(index, to_index), index, connections.drop_first())
        }
    }

    /// The graph after `insert`, and whether it succeeds.
    pub open spec fn spec_insert(
        g: GraphView<K::V, V>,
        key: K::V,
        value: V,
        connections: Seq<(K::V, V)>,
    ) -> (GraphView<K::V, V>, bool) {
        if !Self::can_take(g, key) {
            (g, false)
        } else {
            let written = Self::with_node(g, key, value);
            Self::insert_all(written, slot_of(written.slots, key), connections)
        }
    }

    /// Writes the node `key_value.0` with the value `key_value.1`, then
    /// writes each of `connections` as a node and connects the first node to
    /// it once more. Fails at the first node that the graph has no room for;
    /// what was done until then stays.
    pub fn insert(&mut self, key_value: (K, V), connections: Vec<(K, V)>) -> (result: Result<
        (),
        OutOfCapacityError,
    >)
        requires
            old(self).wf(),
        ensures
            final(self).wf(),
            final(self)@ == Self::spec_insert(
                old(self)@,
                key_value.0@,
                key_value.1,
                Self::pairs_view(connections@),
            ).0,
            result is Ok <==> Self::spec_insert(
                old(self)@,
                key_value.0@,
                key_value.1,
                Self::pairs_view(connections@),
            ).1,
            result is Err ==> result->Err_0.capacity == C,
    {
        let ghost all = Self::pairs_view(connections@);
        let ghost items = connections@;
        let ghost key = key_value.0@;
        let index = match self.upsert_node(key_value.0, key_value.1) {
            Ok(index) => index,
            Err(error) => {
                return Err(error);
            },
        };
        let ghost written = self@;
        let ghost mut done: int = 0;
        assert(all.subrange(0, all.len() as int) =~= all);
        for connection in iter: connections
            invariant
                iter.seq() == items,
                done == iter.index(),
                all == Self::pairs_view(items),
                items == connections@,
                key == key_value.0@,
                Self::can_take(old(self)@, key),
                written == Self::with_node(old(self)@, key, key_value.1),
                slot_of(written.slots, key) == index,
                self.wf(),
                index < C,
                self@.slots[index as int] is IsOccupiedBy,
                Self::insert_all(written, index as int, all) == Self::insert_all(
                    self@,
                    index as int,
                    all.subrange(done, all.len() as int),
                ),
        {
            let ghost rest = all.subrange(done, all.len() as int);
            let ghost current = self@;
            assert(rest.drop_first() =~= all.subrange(done + 1, all.len() as int));
            let to_index = match self.upsert_node(connection.0, connection.1) {
                Ok(to_index) => to_index,
                Err(error) => {
                    return Err(error);
                },
            };
            proof {
                assert(slot_of(self@.slots, rest[0].0) == to_index);
                Self::lemma_with_node_keeps(current, rest[0].0, rest[0].1, index as int);
            }
            self.connect_slots(index, to_index);
            proof {
                done = done + 1;
            }
        }
        Ok(())
    }

    /// Writing a node keeps the state sound. The node is then in the graph,
    /// the other nodes are where they were, and no edge has changed.
    pub proof fn lemma_with_node(g: GraphView<K::V, V>, key: K::V, value: V)
        requires
            Self::view_ok(g),
            Self::can_take(g, key),
        ensures
            Self::view_ok(Self::with_node(g, key, value)),
            has_key(Self::with_node(g, key, value).slots, key),
            0 <= slot_of(Self::with_node(g, key, value).slots, key) < C,
            Self::with_node(g, key, value).slots[slot_of(
                Self::with_node(g, key, value).slots,
                key,
            )] == Slot::IsOccupiedBy((key, value)),
            has_key(g.slots, key) ==> slot_of(Self::with_node(g, key, value).slots, key) == slot_of(
                g.slots,
                key,
            ),
            !has_key(g.slots, key) ==> !(g.slots[slot_of(
                Self::with_node(g, key, value).slots,
                key,
            )] is IsOccupiedBy),
            Self::with_node(g, key, value).out_edges == g.out_edges,
            Self::with_node(g, key, value).in_edges == g.in_edges,
            Self::with_node(g, key, value).order.len() == if has_key(g.slots, key) {
                g.order.len()
            } else {
                g.order.len() + 1
            },
            forall|other: K::V|
                other != key ==> (has_key(Self::with_node(g, key, value).slots, other) <==> has_key(
                    g.slots,
                    other,
                )),
            forall|other: K::V| #[trigger]
                has_key(g.slots, other) && other != key ==> slot_of(
                    Self::with_node(g, key, value).slots,
                    other,
                ) == slot_of(g.slots, other),
    {
        let after = Self::with_node(g, key, value);
        let i = FixedSizeHashMapImpl::<K, V, C, H>::spec_insert_slot(g.slots, key);
        let order = g.order;
        Self::lemma_with_node_ok(g, key, value);
        if has_key(g.slots, key) {
            assert(holds(g.slots, i, key));
            assert(order.contains(i));
            let at = order.index_of(i);
            assert(order[at] == i);
        } else {
            lemma_vacancy(g.slots, g.order, FixedSizeHashMapImpl::<K, V, C, H>::home(key));
            assert(!order.contains(i)) by {
                if order.contains(i) {
                    let j = choose|j: int| 0 <= j < order.len() && order[j] == i;
                    assert(g.slots[order[j]] is IsOccupiedBy);
                }
            }
        }
        assert(holds(after.slots, i, key));
        assert forall|a: int, b: int, k: K::V| #[trigger]
            holds(after.slots, a, k) && #[trigger] holds(after.slots, b, k) implies a == b by {
            if a != i {
                assert(holds(g.slots, a, k));
            }
            if b != i {
                assert(holds(g.slots, b, k));
            }
        }
        assert(holds(after.slots, slot_of(after.slots, key), key));
        let new_order = after.order;
        assert(new_order.no_duplicates()) by {
            if has_key(g.slots, key) {
                let at = order.index_of(i);
                let middle = order.remove(at);
                assert forall|a: int, b: int|
                    0 <= a < new_order.len() && 0 <= b < new_order.len() && a != b implies new_order[a]
                    != new_order[b] by {
                    let a0 = if a < at { a } else { a + 1 };
                    let b0 = if b < at { b } else { b + 1 };
                    if a < middle.len() {
                        assert(new_order[a] == order[a0]);
                    }
                    if b < middle.len() {
                        assert(new_order[b] == order[b0]);
                    }
                }
            }
        }
        assert forall|j: int| 0 <= j < new_order.len() implies 0 <= #[trigger] new_order[j]
            < after.slots.len() && after.slots[new_order[j]] is IsOccupiedBy by {
            if has_key(g.slots, key) {
                let at = order.index_of(i);
                let j0 = if j < at { j } else { j + 1 };
                if j < new_order.len() - 1 {
                    assert(new_order[j] == order[j0]);
                }
            } else {
                if j < order.len() {
                    assert(new_order[j] == order[j]);
                }
            }
        }
        assert forall|x: int|
            0 <= x < after.slots.len() && (#[trigger] after.slots[x]) is IsOccupiedBy implies new_order.contains(
            x,
        ) by {
            if x == i {
                assert(new_order[new_order.len() - 1] == i);
            } else {
                assert(g.slots[x] is IsOccupiedBy);
                let j = choose|j: int| 0 <= j < order.len() && order[j] == x;
                if has_key(g.slots, key) {
                    let at = order.index_of(i);
                    let j1 = if j < at { j } else { j - 1 };
                    assert(new_order[j1] == x);
                } else {
                    assert(new_order[j] == x);
                }
            }
        }
        assert forall|other: K::V| other != key implies (has_key(after.slots, other) <==> has_key(
            g.slots,
            other,
        )) by {
            if has_key(after.slots, other) {
                assert(holds(g.slots, slot_of(after.slots, other), other));
            }
            if has_key(g.slots, other) {
                assert(holds(after.slots, slot_of(g.slots, other), other));
            }
        }
        assert forall|other: K::V| #[trigger] has_key(g.slots, other) && other != key implies slot_of(
            after.slots,
            other,
        ) == slot_of(g.slots, other) by {
            assert(holds(after.slots, slot_of(g.slots, other), other));
            assert(holds(after.slots, slot_of(after.slots, other), other));
        }
    }

    /// Writing a node leaves the other nodes in their slots.
    pub proof fn lemma_with_node_keeps(g: GraphView<K::V, V>, key: K::V, value: V, i: int)
        requires
            valid_capacity(C),
            g.slots.len() == C,
            keys_distinct(g.slots),
            order_ok(g.slots, g.order),
            0 <= i < C,
            g.slots[i] is IsOccupiedBy,
        ensures
            Self::with_node(g, key, value).slots[i] is IsOccupiedBy,
            Self::with_node(g, key, value).slots[i]->IsOccupiedBy_0.0 == g.slots[i]->IsOccupiedBy_0.0,
    {
        let at = FixedSizeHashMapImpl::<K, V, C, H>::spec_insert_slot(g.slots, key);
        if has_key(g.slots, key) {
            assert(holds(g.slots, at, key));
        } else if g.order.len() < C {
            lemma_vacancy(g.slots, g.order, FixedSizeHashMapImpl::<K, V, C, H>::home(key));
        }
    }

    /// The graph after slot `index` was connected once more to each node of
    /// `keys` that the graph has, in turn.
    pub open spec fn connect_all(g: GraphView<K::V, V>, index: int, keys: Seq<K::V>) -> GraphView<
        K::V,
        V,
    >
        decreases keys.len(),
    {
        if keys.len() == 0 {
            g
        } else if has_key(g.slots, keys[0]) {
            Self::connect_all(g.connect(index, slot_of(g.slots, keys[0])), index, keys.drop_first())
        } else {
            Self::connect_all(g, index, keys.drop_first())
        }
    }

    /// The graph after the edge from slot `index` to each node of `keys`
    /// that the graph has lost 1 in weight, in turn.
    pub open spec fn disconnect_each(
        g: GraphView<K::V, V>,
        index: int,
        keys: Seq<K::V>,
    ) -> GraphView<K::V, V>
        decreases keys.len(),
    {
        if keys.len() == 0 {
            g
        } else if has_key(g.slots, keys[0]) {
            Self::disconnect_each(
                g.disconnect(index, slot_of(g.slots, keys[0])),
                index,
                keys.drop_first(),
            )
        } else {
            Self::disconnect_each(g, index, keys.drop_first())
        }
    }

    /// The graph after `connect_to`.
    pub open spec fn spec_connect_to(
        g: GraphView<K::V, V>,
        key: K::V,
        to_keys: Seq<K::V>,
    ) -> GraphView<K::V, V> {
        if has_key(g.slots, key) {
            Self::connect_all(g, slot_of(g.slots, key), to_keys)
        } else {
            g
        }
    }

    /// The graph after `disconnect_from`.
    pub open spec fn spec_disconnect_from(
        g: GraphView<K::V, V>,
        key: K::V,
        to_keys: Seq<K::V>,
    ) -> GraphView<K::V, V> {
        if has_key(g.slots, key) {
            Self::disconnect_each(g, slot_of(g.slots, key), to_keys)
        } else {
            g
        }
    }

    /// Connects the node `k` once more to each node of `to_keys`. A key that
    /// the graph does not have is passed over; if it does not have `k`,
    /// nothing changes.
    pub fn connect_to(&mut self, k: &K, to_keys: Vec<&K>)
        requires
            old(self).wf(),
        ensures
            final(self).wf(),
            final(self)@ == Self::spec_connect_to(old(self)@, k@, Self::keys_view(to_keys@)),
    {
        proof {
            self.lemma_table();
        }
        let Some(index) = self.hash_map.get_index_of(k) else {
            return ;
        };
        let ghost keys = Self::keys_view(to_keys@);
        assert(keys.subrange(0, keys.len() as int) =~= keys);
        let mut i: usize = 0;
        while i < to_keys.len()
            invariant
                i <= to_keys.len(),
                keys == Self::keys_view(to_keys@),
                self.wf(),
                index < C,
                self@.slots[index as int] is IsOccupiedBy,
                Self::connect_all(old(self)@, index as int, keys) == Self::connect_all(
                    self@,
                    index as int,
                    keys.subrange(i as int, keys.len() as int),
                ),
            decreases to_keys.len() - i,
        {
            let ghost rest = keys.subrange(i as int, keys.len() as int);
            assert(rest.drop_first() =~= keys.subrange(i + 1, keys.len() as int));
            proof {
                self.lemma_table();
            }
            match self.hash_map.get_index_of(to_keys[i]) {
                Some(to_index) => {
                    self.connect_slots(index, to_index);
                },
                None => {},
            }
            i += 1;
        }
    }

    /// Takes 1 from the weight of the edge from the node `key` to each node
    /// of `to_keys`; an edge of weight 1 is severed. A key that the graph
    /// does not have is passed over.
    pub fn disconnect_from(&mut self, key: &K, to_keys: Vec<&K>)
        requires
            old(self).wf(),
        ensures
            final(self).wf(),
            final(self)@ == Self::spec_disconnect_from(
                old(self)@,
                key@,
                Self::keys_view(to_keys@),
            ),
    {
        proof {
            self.lemma_table();
        }
        let Some(index) = self.hash_map.get_index_of(key) else {
            return ;
        };
        let ghost keys = Self::keys_view(to_keys@);
        assert(keys.subrange(0, keys.len() as int) =~= keys);
        let mut i: usize = 0;
        while i < to_keys.len()
            invariant
                i <= to_keys.len(),
                keys == Self::keys_view(to_keys@),
                self.wf(),
                index < C,
                self@.slots[index as int] is IsOccupiedBy,
                Self::disconnect_each(old(self)@, index as int, keys) == Self::disconnect_each(
                    self@,
                    index as int,
                    keys.subrange(i as int, keys.len() as int),
                ),
            decreases to_keys.len() - i,
        {
            let ghost rest = keys.subrange(i as int, keys.len() as int);
            assert(rest.drop_first() =~= keys.subrange(i + 1, keys.len() as int));
            proof {
                self.lemma_table();
            }
            match self.hash_map.get_index_of(to_keys[i]) {
                Some(to_index) => {
                    self.disconnect_slots(index, to_index);
                },
                None => {},
            }
            i += 1;
        }
    }

    /// Severs the edges that leave the node in slot `index`.
    fn sever_out_slots(&mut self, index: usize)
        requires
            old(self).wf(),
            index < C,
            old(self)@.slots[index as int] is IsOccupiedBy,
        ensures
            final(self).wf(),
            final(self)@ == old(self)@.sever_out(index as int),
            final(self)@.slots == old(self)@.slots,
            final(self)@.order == old(self)@.order,
            final(self)@.out_edges[index as int].len() == 0,
            final(self)@.in_edges[index as int] == old(self)@.in_edges[index as int],
    {
        loop
            invariant
                self.wf(),
                index < C,
                self@.slots == old(self)@.slots,
                self@.order == old(self)@.order,
                self@.slots[index as int] is IsOccupiedBy,
                self@.in_edges[index as int] == old(self)@.in_edges[index as int],
                old(self)@.sever_out(index as int) == self@.sever_out(index as int),
            ensures
                self@.out_edges[index as int].len() == 0,
            decreases self@.out_edges[index as int].len(),
        {
            let to_index = match self.node_at(index).out_edges.head() {
                Some((to_index, _)) => *to_index,
                None => {
                    break ;
                },
            };
            self.sever_slots(index, to_index);
        }
    }

    /// Severs every edge that leaves the node `key`.
    pub fn disconnect_all(&mut self, key: &K)
        requires
            old(self).wf(),
        ensures
            final(self).wf(),
            final(self)@ == if has_key(old(self)@.slots, key@) {
                old(self)@.sever_out(slot_of(old(self)@.slots, key@))
            } else {
                old(self)@
            },
    {
        proof {
            self.lemma_table();
        }
        let Some(index) = self.hash_map.get_index_of(key) else {
            return ;
        };
        self.sever_out_slots(index);
    }

    /// The weight of the edge from the node `from_key` to the node `to_key`;
    /// 0 where there is no such edge, or no such node.
    pub fn out_edge_weight(&self, from_key: &K, to_key: &K) -> (weight: u32)
        requires
            self.wf(),
        ensures
            weight == self@.weight(from_key@, to_key@),
    {
        proof {
            self.lemma_table();
        }
        match self.hash_map.get_index_of(from_key) {
            Some(index) => match self.hash_map.get_index_of(to_key) {
                Some(to_index) => match self.node_at(index).out_edges.get(&to_index) {
                    Some(weight) => *weight,
                    None => 0,
                },
                None => 0,
            },
            None => 0,
        }
    }

    /// Severs the edges that enter the node in slot `index`.
    fn sever_in_slots(&mut self, index: usize)
        requires
            old(self).wf(),
            index < C,
            old(self)@.slots[index as int] is IsOccupiedBy,
        ensures
            final(self).wf(),
            final(self)@ == old(self)@.sever_in(index as int),
            final(self)@.slots == old(self)@.slots,
            final(self)@.order == old(self)@.order,
            final(self)@.in_edges[index as int].len() == 0,
            final(self)@.out_edges[index as int] == old(self)@.out_edges[index as int],
    {
        loop
            invariant
                self.wf(),
                index < C,
                self@.slots == old(self)@.slots,
                self@.order == old(self)@.order,
                self@.slots[index as int] is IsOccupiedBy,
                self@.out_edges[index as int] == old(self)@.out_edges[index as int],
                old(self)@.sever_in(index as int) == self@.sever_in(index as int),
            ensures
                self@.in_edges[index as int].len() == 0,
            decreases self@.in_edges[index as int].len(),
        {
            let from_index = match self.node_at(index).in_edges.head() {
                Some(from_index) => *from_index,
                None => {
                    break ;
                },
            };
            self.sever_slots(from_index, index);
        }
    }

    /// Removes the node `key` and every edge that leaves or enters it. Where
    /// the graph has no such node, nothing changes.
    pub fn remove(&mut self, key: &K)
        requires
            old(self).wf(),
        ensures
            final(self).wf(),
            final(self)@ == old(self)@.without(key@),
            !has_key(final(self)@.slots, key@),
            has_key(old(self)@.slots, key@) ==> {
                let i = slot_of(old(self)@.slots, key@);
                &&& final(self)@.slots == old(self)@.slots.update(i, Slot::WasOccupied)
                &&& final(self)@.order.len() == old(self)@.order.len() - 1
                &&& forall|x: int, j: int|
                    0 <= x < C && 0 <= j < final(self)@.out_edges[x].len() ==> (
                    #[trigger] final(self)@.out_edges[x][j]).0 != i
                &&& forall|x: int, j: int|
                    0 <= x < C && 0 <= j < final(self)@.in_edges[x].len() ==> (
                    #[trigger] final(self)@.in_edges[x][j]) != i
            },
    {
        proof {
            self.lemma_table();
            Self::lemma_without(self@, key@);
        }
        let Some(index) = self.hash_map.get_index_of(key) else {
            return ;
        };
        self.sever_out_slots(index);
        self.sever_in_slots(index);
        let ghost before = self@;
        proof {
            self.lemma_table();
            lemma_detach_ok(before, index as int);
        }
        let _ = self.hash_map.remove(key);
        proof {
            let after = before.detach(index as int);
            assert forall|x: int| 0 <= x < C implies #[trigger] after.out_edges[x] == out_of(
                self.hash_map.slots()[x],
            ) by {}
            assert forall|x: int| 0 <= x < C implies #[trigger] after.in_edges[x] == in_of(
                self.hash_map.slots()[x],
            ) by {}
            self.lemma_view_is(after);
        }
    }

    /// A read-only view of the node `key`, if the graph has it.
    pub fn node(&self, key: &K) -> (node: Option<Node<'_, K, V, C, H>>)
        requires
            self.wf(),
        ensures
            node is Some <==> has_key(self@.slots, key@),
            node is Some ==> {
                &&& node->Some_0.wf()
                &&& node->Some_0.graph_view() == self@
                &&& node->Some_0.slot() == slot_of(self@.slots, key@)
                &&& node->Some_0.spec_key()@ == key@
            },
    {
        proof {
            self.lemma_table();
        }
        match self.hash_map.get_entry_and_index_of(key) {
            Some((entry, index)) => Some(
                Node { node_entry: entry, graph: self, index: Ghost(index as int) },
            ),
            None => None,
        }
    }

    /// An iterator over the edges that leave the node `k`, in the order in
    /// which they were made; over nothing where the graph has no such node.
    pub fn iter_out_edges(&self, k: &K) -> (iter: EdgeIter<'_, K, V, C, H>)
        requires
            self.wf(),
        ensures
            iter.wf(),
            iter.graph_view() == self@,
            iter.remaining_edges() == if has_key(self@.slots, k@) {
                self@.out_edges[slot_of(self@.slots, k@)]
            } else {
                Seq::<(usize, u32)>::empty()
            },
    {
        proof {
            self.lemma_table();
        }
        if let Some((entry, index)) = self.hash_map.get_entry_and_index_of(k) {
            let iter = EdgeIter { inner_iter: entry.value().out_edges.iter_head(), graph: self };
            proof {
                assert(self@.out_edges[index as int] == out_of(self.hash_map.slots()[index as int]));
            }
            iter
        } else {
            EdgeIter { inner_iter: self.empty_out_edges.iter_head(), graph: self }
        }
    }

    /// The graph after `insert` was called `n` times with the node `key` and
    /// the one connection `to_key`.
    pub open spec fn insert_times(
        g: GraphView<K::V, V>,
        key: K::V,
        value: V,
        to_key: K::V,
        to_value: V,
        n: nat,
    ) -> GraphView<K::V, V>
        decreases n,
    {
        if n == 0 {
            g
        } else {
            Self::spec_insert(
                Self::insert_times(g, key, value, to_key, to_value, (n - 1) as nat),
                key,
                value,
                seq![(to_key, to_value)],
            ).0
        }
    }

    /// The graph after `disconnect_from` was called `n` times with the node
    /// `key` and the one target `to_key`.
    pub open spec fn disconnect_times(
        g: GraphView<K::V, V>,
        key: K::V,
        to_key: K::V,
        n: nat,
    ) -> GraphView<K::V, V>
        decreases n,
    {
        if n == 0 {
            g
        } else {
            Self::spec_disconnect_from(
                Self::disconnect_times(g, key, to_key, (n - 1) as nat),
                key,
                seq![to_key],
            )
        }
    }

    /// An `insert` of a node with one connection to another node succeeds
    /// where the graph has room for the nodes, and then both are in the
    /// graph. The weight of the edge between them has grown by 1, where the
    /// edge existed or both nodes could take one more.
    pub proof fn lemma_insert_once(
        g: GraphView<K::V, V>,
        key: K::V,
        value: V,
        to_key: K::V,
        to_value: V,
    )
        requires
            Self::view_ok(g),
            key != to_key,
            g.order.len() + (if has_key(g.slots, key) {
                0int
            } else {
                1int
            }) + (if has_key(g.slots, to_key) {
                0int
            } else {
                1int
            }) <= C,
            g.weight(key, to_key) > 0 || {
                &&& has_key(g.slots, key) ==> g.out_edges[slot_of(g.slots, key)].len() < MAX_EDGES
                &&& has_key(g.slots, to_key) ==> g.in_edges[slot_of(g.slots, to_key)].len()
                    < MAX_EDGES
            },
        ensures
            Self::spec_insert(g, key, value, seq![(to_key, to_value)]).1,
            Self::view_ok(Self::spec_insert(g, key, value, seq![(to_key, to_value)]).0),
            has_key(Self::spec_insert(g, key, value, seq![(to_key, to_value)]).0.slots, key),
            has_key(Self::spec_insert(g, key, value, seq![(to_key, to_value)]).0.slots, to_key),
            Self::spec_insert(g, key, value, seq![(to_key, to_value)]).0.weight(key, to_key) == if g.weight(
                key,
                to_key,
            ) < u32::MAX {
                (g.weight(key, to_key) + 1) as u32
            } else {
                g.weight(key, to_key)
            },
    {
        let connections = seq![(to_key, to_value)];
        Self::lemma_with_node(g, key, value);
        let g1 = Self::with_node(g, key, value);
        let i1 = slot_of(g1.slots, key);
        assert(holds(g1.slots, i1, key));
        Self::lemma_with_node(g1, to_key, to_value);
        let g2 = Self::with_node(g1, to_key, to_value);
        let i2 = slot_of(g2.slots, to_key);
        assert(holds(g2.slots, i2, to_key));
        assert(slot_of(g2.slots, key) == i1);
        assert(holds(g2.slots, i1, key));
        assert(i1 != i2);
        assert(g2.out_edges == g.out_edges);
        assert(g2.in_edges == g.in_edges);
        if !has_key(g.slots, key) {
            lemma_no_edge_at_free_slot(g, i1);
        }
        if !has_key(g.slots, to_key) {
            lemma_no_edge_at_free_slot(g1, i2);
            if view_has_key(g.out_edges[i1], i2 as usize) {
                let p = view_position(g.out_edges[i1], i2 as usize);
                assert(g1.out_edges[i1][p].0 == i2);
            }
        }
        assert(g2.weight_at(i1, i2) == g.weight(key, to_key));
        lemma_connect_ok(g2, i1, i2);
        lemma_connect_weight(g2, i1, i2);
        let g3 = g2.connect(i1, i2);
        assert(connections.len() == 1);
        assert(connections[0] == (to_key, to_value));
        assert(connections.drop_first().len() == 0);
        assert(Self::insert_all(g3, i1, connections.drop_first()) == (g3, true));
        assert(Self::insert_all(g1, i1, connections) == (g3, true));
        assert(g3.slots == g2.slots);
    }

    /// After `n` calls of `insert` with the same node and the same one
    /// connection, the edge between the two has the weight `n`, where it did
    /// not exist before and the graph had room for the nodes and the edge.
    pub proof fn lemma_insert_counts(
        g: GraphView<K::V, V>,
        key: K::V,
        value: V,
        to_key: K::V,
        to_value: V,
        n: nat,
    )
        requires
            Self::view_ok(g),
            key != to_key,
            1 <= n <= u32::MAX,
            g.order.len() + (if has_key(g.slots, key) {
                0int
            } else {
                1int
            }) + (if has_key(g.slots, to_key) {
                0int
            } else {
                1int
            }) <= C,
            g.weight(key, to_key) == 0,
            has_key(g.slots, key) ==> g.out_edges[slot_of(g.slots, key)].len() < MAX_EDGES,
            has_key(g.slots, to_key) ==> g.in_edges[slot_of(g.slots, to_key)].len() < MAX_EDGES,
        ensures
            Self::view_ok(Self::insert_times(g, key, value, to_key, to_value, n)),
            has_key(Self::insert_times(g, key, value, to_key, to_value, n).slots, key),
            has_key(Self::insert_times(g, key, value, to_key, to_value, n).slots, to_key),
            Self::insert_times(g, key, value, to_key, to_value, n).weight(key, to_key) == n,
        decreases n,
    {
        if n == 1 {
            Self::lemma_insert_once(g, key, value, to_key, to_value);
        } else {
            Self::lemma_insert_counts(g, key, value, to_key, to_value, (n - 1) as nat);
            let before = Self::insert_times(g, key, value, to_key, to_value, (n - 1) as nat);
            crate::table_model::lemma_order_bound(before.order, C as int);
            Self::lemma_insert_once(before, key, value, to_key, to_value);
        }
    }

    /// After `n` calls of `disconnect_from` with the same node and the same
    /// one target, an edge of weight `n` or less is gone: the node no longer
    /// records it, and neither does the target. A heavier edge has lost `n`.
    pub proof fn lemma_disconnect_counts(g: GraphView<K::V, V>, key: K::V, to_key: K::V, n: nat)
        requires
            Self::view_ok(g),
            has_key(g.slots, key),
            has_key(g.slots, to_key),
        ensures
            Self::view_ok(Self::disconnect_times(g, key, to_key, n)),
            Self::disconnect_times(g, key, to_key, n).slots == g.slots,
            Self::disconnect_times(g, key, to_key, n).weight(key, to_key) == if g.weight(
                key,
                to_key,
            ) >= n {
                (g.weight(key, to_key) - n) as u32
            } else {
                0
            },
            n >= g.weight(key, to_key) ==> {
                let after = Self::disconnect_times(g, key, to_key, n);
                &&& !view_has_key(
                    after.out_edges[slot_of(g.slots, key)],
                    slot_of(g.slots, to_key) as usize,
                )
                &&& !after.in_edges[slot_of(g.slots, to_key)].contains(
                    slot_of(g.slots, key) as usize,
                )
            },
        decreases n,
    {
        let u = slot_of(g.slots, key);
        let t = slot_of(g.slots, to_key);
        assert(holds(g.slots, u, key));
        assert(holds(g.slots, t, to_key));
        if n == 0 {
            if g.weight(key, to_key) == 0 {
                if view_has_key(g.out_edges[u], t as usize) {
                    let p = view_position(g.out_edges[u], t as usize);
                    assert(g.out_edges[u][p].1 > 0);
                }
                if g.in_edges[t].contains(u as usize) {
                    let j = choose|j: int|
                        0 <= j < g.in_edges[t].len() && g.in_edges[t][j] == u as usize;
                    assert(g.in_edges[t][j] == u as usize);
                }
            }
        } else {
            Self::lemma_disconnect_counts(g, key, to_key, (n - 1) as nat);
            let before = Self::disconnect_times(g, key, to_key, (n - 1) as nat);
            let keys = seq![to_key];
            assert(keys[0] == to_key);
            assert(keys.drop_first().len() == 0);
            let after = before.disconnect(u, t);
            assert(Self::disconnect_each(after, u, keys.drop_first()) == after);
            assert(Self::disconnect_each(before, u, keys) == after);
            lemma_disconnect_ok(before, u, t);
            lemma_disconnect_weight(before, u, t);
        }
    }

    /// Removing a node keeps the state sound. The node is then gone, and no
    /// edge of another node leaves for its slot or enters from it.
    pub proof fn lemma_without(g: GraphView<K::V, V>, key: K::V)
        requires
            Self::view_ok(g),
        ensures
            Self::view_ok(g.without(key)),
            !has_key(g.without(key).slots, key),
            g.without(key).order.len() == if has_key(g.slots, key) {
                g.order.len() - 1
            } else {
                g.order.len() as int
            },
            forall|other: K::V|
                other != key ==> (has_key(g.without(key).slots, other) <==> has_key(
                    g.slots,
                    other,
                )),
            has_key(g.slots, key) ==> {
                let i = slot_of(g.slots, key);
                &&& g.without(key).slots == g.slots.update(i, Slot::WasOccupied)
                &&& forall|x: int, j: int|
                    0 <= x < C && 0 <= j < g.without(key).out_edges[x].len() ==> (
                    #[trigger] g.without(key).out_edges[x][j]).0 != i
                &&& forall|x: int, j: int|
                    0 <= x < C && 0 <= j < g.without(key).in_edges[x].len() ==> (
                    #[trigger] g.without(key).in_edges[x][j]) != i
            },
    {
        let after = g.without(key);
        if has_key(g.slots, key) {
            let i = slot_of(g.slots, key);
            lemma_sever_out(g, i);
            let g1 = g.sever_out(i);
            lemma_sever_in(g1, i);
            let g2 = g1.sever_in(i);
            lemma_detach_ok(g2, i);
            let order = g.order;
            let at = order.index_of(i);
            let new_order = after.order;
            assert forall|a: int, b: int, k: K::V| #[trigger]
                holds(after.slots, a, k) && #[trigger] holds(after.slots, b, k) implies a == b by {
                assert(holds(g.slots, a, k));
                assert(holds(g.slots, b, k));
            }
            assert(new_order.no_duplicates());
            assert forall|j: int| 0 <= j < new_order.len() implies 0 <= #[trigger] new_order[j]
                < after.slots.len() && after.slots[new_order[j]] is IsOccupiedBy by {}
            assert forall|x: int|
                0 <= x < after.slots.len() && (#[trigger] after.slots[x]) is IsOccupiedBy implies new_order.contains(
                x,
            ) by {
                let j = choose|j: int| 0 <= j < order.len() && order[j] == x;
                let j1 = if j < at { j } else { j - 1 };
                assert(new_order[j1] == x);
            }
            assert(!has_key(after.slots, key)) by {
                if has_key(after.slots, key) {
                    let j = slot_of(after.slots, key);
                    assert(holds(g.slots, j, key));
                }
            }
            assert forall|other: K::V| other != key implies (has_key(after.slots, other)
                <==> has_key(g.slots, other)) by {
                if has_key(after.slots, other) {
                    assert(holds(g.slots, slot_of(after.slots, other), other));
                }
                if has_key(g.slots, other) {
                    assert(holds(after.slots, slot_of(g.slots, other), other));
                }
            }
            lemma_no_edge_at_free_slot(after, i);
        }
    }
}

/// A read-only view of a node of a graph.
pub struct Node<'a, K, V, const C: usize, H> {
    node_entry: &'a MapEntry<K, NodeEntry<V>, C>,
    graph: &'a FixedSizeHashGraphImpl<K, V, C, H>,
    index: Ghost<int>,
}

impl<'a, K: TableKey, V, const C: usize, H: KeyHasher<K>> Node<'a, K, V, C, H> {
    /// The view stands for an occupied slot of a sound graph.
    pub closed spec fn wf(&self) -> bool {
        &&& self.graph.wf()
        &&& 0 <= self.index@ < C
        &&& self.graph.hash_map.slots()[self.index@] == Slot::IsOccupiedBy(
            (self.node_entry.spec_key()@, self.node_entry.spec_value()),
        )
    }

    /// The state of the graph that the node belongs to.
    pub closed spec fn graph_view(&self) -> GraphView<K::V, V> {
        self.graph@
    }

    /// The slot of the node.
    pub closed spec fn slot(&self) -> int {
        self.index@
    }

    pub closed spec fn spec_key(&self) -> K {
        self.node_entry.spec_key()
    }

    pub closed spec fn spec_value(&self) -> V {
        self.node_entry.spec_value().value
    }

    /// The node is the one that the graph holds in its slot.
    pub proof fn lemma_node(&self)
        requires
            self.wf(),
        ensures
            0 <= self.slot() < C,
            self.graph_view().slots[self.slot()] == Slot::IsOccupiedBy(
                (self.spec_key()@, self.spec_value()),
            ),
            self.slot() == slot_of(self.graph_view().slots, self.spec_key()@),
    {
        self.graph.lemma_table();
        assert(holds(self.graph@.slots, self.index@, self.spec_key()@));
    }

    /// An iterator over the edges that leave the node, in the order in which
    /// they were made.
    pub fn iter_out_edges(&self) -> (iter: EdgeIter<'_, K, V, C, H>)
        requires
            self.wf(),
        ensures
            iter.wf(),
            iter.graph_view() == self.graph_view(),
            iter.remaining_edges() == self.graph_view().out_edges[self.slot()],
    {
        let iter = EdgeIter {
            inner_iter: self.node_entry.value().out_edges.iter_head(),
            graph: self.graph,
        };
        proof {
            self.graph.lemma_table();
            let index = self.index@;
            assert(self.graph@.out_edges[index] == out_of(self.graph.hash_map.slots()[index]));
        }
        iter
    }

    /// The weight of the edge from the node to the node `to_key`; 0 where
    /// there is no such edge, or no such node.
    pub fn out_edge_weight(&self, to_key: &K) -> (weight: u32)
        requires
            self.wf(),
        ensures
            weight == self.graph_view().weight(self.spec_key()@, to_key@),
    {
        proof {
            self.lemma_node();
            self.graph.lemma_table();
            let index = self.index@;
            assert(holds(self.graph@.slots, index, self.spec_key()@));
        }
        match self.graph.hash_map.get_index_of(to_key) {
            Some(to_index) => match self.node_entry.value().out_edges.get(&to_index) {
                Some(weight) => *weight,
                None => 0,
            },
            None => 0,
        }
    }

    pub fn key(&self) -> (key: &'a K)
        ensures
            *key == self.spec_key(),
    {
        self.node_entry.key()
    }

    pub fn value(&self) -> (value: &'a V)
        ensures
            *value == self.spec_value(),
    {
        &self.node_entry.value().value
    }
}

/// An iterator over the edges that leave a node.
pub struct EdgeIter<'a, K, V, const C: usize, H> {
    inner_iter: MapIter<'a, usize, u32, MAX_EDGES>,
    graph: &'a FixedSizeHashGraphImpl<K, V, C, H>,
}

impl<'a, K: TableKey, V, const C: usize, H: KeyHasher<K>> EdgeIter<'a, K, V, C, H> {
    /// The iterator walks edges of a sound graph, which end at its nodes.
    pub closed spec fn wf(&self) -> bool {
        &&& self.inner_iter.wf()
        &&& self.graph.wf()
        &&& forall|j: int|
            0 <= j < self.inner_iter.remaining_items().len() ==> {
                let edge = #[trigger] self.inner_iter.remaining_items()[j];
                edge.0 < C && self.graph@.slots[edge.0 as int] is IsOccupiedBy
            }
    }

    /// The state of the graph whose edges the iterator walks.
    pub closed spec fn graph_view(&self) -> GraphView<K::V, V> {
        self.graph@
    }

    /// The edges that the iterator has yet to yield, each as the slot of its
    /// target and its weight.
    pub closed spec fn remaining_edges(&self) -> Seq<(usize, u32)> {
        self.inner_iter.remaining_items()
    }

    /// Yields the target of the next edge and the weight of the edge, if an
    /// edge is left.
    pub fn next(&mut self) -> (item: Option<(Node<'a, K, V, C, H>, u32)>)
        requires
            old(self).wf(),
        ensures
            final(self).wf(),
            final(self).graph_view() == old(self).graph_view(),
            item is Some <==> old(self).remaining_edges().len() > 0,
            match item {
                Some((node, weight)) => {
                    &&& node.wf()
                    &&& node.graph_view() == old(self).graph_view()
                    &&& node.slot() == old(self).remaining_edges().first().0
                    &&& weight == old(self).remaining_edges().first().1
                    &&& final(self).remaining_edges() == old(self).remaining_edges().drop_first()
                },
                None => final(self).remaining_edges() == old(self).remaining_edges(),
            },
    {
        let graph = self.graph;
        match self.inner_iter.next() {
            Some((edge_index, edge_weight)) => {
                match graph.hash_map.get_entry_at(*edge_index) {
                    Some(edge_entry) => Some(
                        (
                            Node {
                                node_entry: edge_entry,
                                graph,
                                index: Ghost(*edge_index as int),
                            },
                            *edge_weight,
                        ),
                    ),
                    None => None,
                }
            },
            None => None,
        }
    }

    /// The number of edges left, as a lower and an upper bound.
    pub fn size_hint(&self) -> (hint: (usize, Option<usize>))
        requires
            self.wf(),
        ensures
            hint.0 == self.remaining_edges().len(),
            hint.1 == Some(hint.0),
    {
        self.inner_iter.size_hint()
    }

    /// The number of edges left.
    pub fn count(self) -> (count: usize)
        requires
            self.wf(),
        ensures
            count == self.remaining_edges().len(),
    {
        self.inner_iter.count()
    }
}

} // verus!
