use crate::hash_map_internal::Slot;
use crate::table_model::{has_key, slot_of, view_has_key, view_keys_distinct, view_position};
use vstd::prelude::*;

verus! {

/// The most edges that can leave a node, and the most that can enter one.
pub const MAX_EDGES: usize = 151;

/// The state of a graph: the slot array with each node's key and value, the
/// occupied slots in iteration order, and for each slot the edges that leave
/// it, as target slot and weight in the order in which they were made, and
/// the slots from which an edge enters it.
#[verifier::ext_equal]
pub struct GraphView<KV, V> {
    pub slots: Seq<Slot<(KV, V)>>,
    pub order: Seq<int>,
    pub out_edges: Seq<Seq<(usize, u32)>>,
    pub in_edges: Seq<Seq<usize>>,
}

impl<KV, V> GraphView<KV, V> {
    /// The state of a graph of `capacity` slots that has no node.
    pub open spec fn empty(capacity: nat) -> Self {
        GraphView {
            slots: Seq::new(capacity, |i: int| Slot::Empty),
            order: Seq::empty(),
            out_edges: Seq::new(capacity, |i: int| Seq::empty()),
            in_edges: Seq::new(capacity, |i: int| Seq::empty()),
        }
    }

    /// The edges are sound: they run between occupied slots, never from a
    /// slot to itself, have a positive weight, and each is recorded at both
    /// of its ends.
    pub open spec fn edges_ok(self) -> bool {
        &&& self.out_edges.len() == self.slots.len()
        &&& self.in_edges.len() == self.slots.len()
        &&& forall|u: int|
            0 <= u < self.slots.len() && !((#[trigger] self.slots[u]) is IsOccupiedBy)
                ==> self.out_edges[u].len() == 0 && self.in_edges[u].len() == 0
        &&& forall|u: int|
            0 <= u < self.slots.len() ==> {
                &&& (#[trigger] self.out_edges[u]).len() <= MAX_EDGES
                &&& view_keys_distinct(self.out_edges[u])
            }
        &&& forall|u: int|
            0 <= u < self.slots.len() ==> {
                &&& (#[trigger] self.in_edges[u]).len() <= MAX_EDGES
                &&& self.in_edges[u].no_duplicates()
            }
        &&& forall|u: int, j: int|
            0 <= u < self.slots.len() && 0 <= j < self.out_edges[u].len() ==> self.edge_ok(
                u,
                #[trigger] self.out_edges[u][j],
            )
        &&& forall|v: int, j: int|
            0 <= v < self.slots.len() && 0 <= j < self.in_edges[v].len() ==> self.source_ok(
                v,
                #[trigger] self.in_edges[v][j],
            )
    }

    /// The edge `edge` that leaves slot `u` is sound: it ends at another
    /// slot, which is occupied and records the edge, and its weight is not 0.
    pub open spec fn edge_ok(self, u: int, edge: (usize, u32)) -> bool {
        &&& edge.0 < self.slots.len()
        &&& edge.0 != u
        &&& self.slots[edge.0 as int] is IsOccupiedBy
        &&& edge.1 > 0
        &&& self.in_edges[edge.0 as int].contains(u as usize)
    }

    /// The record in slot `v` of an edge from slot `source` is sound: the
    /// edge starts at another slot, which is occupied and has the edge.
    pub open spec fn source_ok(self, v: int, source: usize) -> bool {
        &&& source < self.slots.len()
        &&& source != v
        &&& self.slots[source as int] is IsOccupiedBy
        &&& view_has_key(self.out_edges[source as int], v as usize)
    }

    /// The weight of the edge from slot `u` to slot `t`; 0 where there is none.
    pub open spec fn weight_at(self, u: int, t: int) -> u32 {
        if 0 <= u < self.out_edges.len() && view_has_key(self.out_edges[u], t as usize) {
            self.out_edges[u][view_position(self.out_edges[u], t as usize)].1
        } else {
            0
        }
    }

    /// The weight of the edge from the node `from` to the node `to`; 0 where
    /// there is no such edge, or one of the nodes is not in the graph.
    pub open spec fn weight(self, from: KV, to: KV) -> u32 {
        if has_key(self.slots, from) && has_key(self.slots, to) {
            self.weight_at(slot_of(self.slots, from), slot_of(self.slots, to))
        } else {
            0
        }
    }

    /// The nodes in iteration order, each with its value.
    pub open spec fn nodes(self) -> Seq<(KV, V)> {
        self.order.map_values(|i: int| self.slots[i]->IsOccupiedBy_0)
    }

    /// The graph with `weight` as the weight of the edge from slot `u` to slot
    /// `t`, which it has. Nothing else changes.
    pub open spec fn with_weight(self, u: int, t: int, weight: u32) -> Self {
        let out = self.out_edges[u];
        GraphView {
            out_edges: self.out_edges.update(
                u,
                out.update(view_position(out, t as usize), (t as usize, weight)),
            ),
            ..self
        }
    }

    /// The graph after one more connection from slot `u` to slot `t`: an
    /// edge that exists gains 1 in weight, up to the largest number; a new
    /// edge is made with weight 1 where `u` can take another outgoing and `t`
    /// another incoming edge. A slot is not connected to itself.
    pub open spec fn connect(self, u: int, t: int) -> Self {
        let out = self.out_edges[u];
        let inn = self.in_edges[t];
        if u == t {
            self
        } else if view_has_key(out, t as usize) {
            let at = view_position(out, t as usize);
            if out[at].1 < u32::MAX {
                self.with_weight(u, t, (out[at].1 + 1) as u32)
            } else {
                self
            }
        } else if out.len() < MAX_EDGES && inn.len() < MAX_EDGES {
            GraphView {
                out_edges: self.out_edges.update(u, out.push((t as usize, 1u32))),
                in_edges: self.in_edges.update(t, inn.push(u as usize)),
                ..self
            }
        } else {
            self
        }
    }

    /// The graph without the edge from slot `u` to slot `t`, at both ends.
    pub open spec fn sever(self, u: int, t: int) -> Self {
        let out = self.out_edges[u];
        let inn = self.in_edges[t];
        if view_has_key(out, t as usize) {
            GraphView {
                out_edges: self.out_edges.update(u, out.remove(view_position(out, t as usize))),
                in_edges: self.in_edges.update(t, inn.remove(inn.index_of(u as usize))),
                ..self
            }
        } else {
            self
        }
    }

    /// The graph after the edge from slot `u` to slot `t` lost 1 in weight.
    /// An edge of weight 1 is severed.
    pub open spec fn disconnect(self, u: int, t: int) -> Self {
        let out = self.out_edges[u];
        if view_has_key(out, t as usize) {
            let at = view_position(out, t as usize);
            if out[at].1 <= 1 {
                self.sever(u, t)
            } else {
                self.with_weight(u, t, (out[at].1 - 1) as u32)
            }
        } else {
            self
        }
    }

    /// The graph without the edges that leave slot `u`.
    pub open spec fn sever_out(self, u: int) -> Self
        decreases self.out_edges[u].len(),
    {
        if 0 <= u < self.out_edges.len() && self.out_edges[u].len() > 0 && view_has_key(
            self.out_edges[u],
            self.out_edges[u][0].0,
        ) {
            self.sever(u, self.out_edges[u][0].0 as int).sever_out(u)
        } else {
            self
        }
    }

    /// The graph without the edges that enter slot `v`.
    pub open spec fn sever_in(self, v: int) -> Self
        decreases self.in_edges[v].len(),
    {
        if 0 <= v < self.in_edges.len() && self.in_edges[v].len() > 0 && self.in_edges[v][0]
            < self.out_edges.len() && view_has_key(
            self.out_edges[self.in_edges[v][0] as int],
            v as usize,
        ) {
            self.sever(self.in_edges[v][0] as int, v).sever_in(v)
        } else {
            self
        }
    }
}

impl<KV, V> GraphView<KV, V> {
    /// The graph without the node in slot `i`, which has no edges left.
    pub open spec fn detach(self, i: int) -> Self {
        GraphView {
            slots: self.slots.update(i, Slot::WasOccupied),
            order: self.order.remove(self.order.index_of(i)),
            ..self
        }
    }

    /// The graph after the node `key` was removed with all its edges; the
    /// graph itself where it has no such node.
    pub open spec fn without(self, key: KV) -> Self {
        if has_key(self.slots, key) {
            let i = slot_of(self.slots, key);
            self.sever_out(i).sever_in(i).detach(i)
        } else {
            self
        }
    }
}

/// Removing a node that has no edges keeps the edges sound.
pub proof fn lemma_detach_ok<KV, V>(g: GraphView<KV, V>, i: int)
    requires
        g.edges_ok(),
        0 <= i < g.slots.len(),
        g.out_edges[i].len() == 0,
        g.in_edges[i].len() == 0,
    ensures
        g.detach(i).edges_ok(),
{
    let after = g.detach(i);
    assert forall|x: int, j: int|
        0 <= x < after.slots.len() && 0 <= j < after.out_edges[x].len() implies after.edge_ok(
        x,
        #[trigger] after.out_edges[x][j],
    ) by {
        let edge = g.out_edges[x][j];
        assert(g.in_edges[edge.0 as int].contains(x as usize));
        assert(edge.0 != i);
    }
    assert forall|v: int, j: int|
        0 <= v < after.slots.len() && 0 <= j < after.in_edges[v].len() implies after.source_ok(
        v,
        #[trigger] after.in_edges[v][j],
    ) by {
        let source = g.in_edges[v][j];
        assert(view_has_key(g.out_edges[source as int], v as usize));
        assert(source != i);
    }
}

/// Another weight for an edge that the graph has keeps the edges sound, if
/// the weight is not 0.
pub proof fn lemma_with_weight_ok<KV, V>(g: GraphView<KV, V>, u: int, t: int, weight: u32)
    requires
        g.edges_ok(),
        0 <= u < g.slots.len(),
        0 <= t <= usize::MAX,
        g.slots.len() <= usize::MAX,
        view_has_key(g.out_edges[u], t as usize),
        weight > 0,
    ensures
        g.with_weight(u, t, weight).edges_ok(),
{
    let after = g.with_weight(u, t, weight);
    let out = g.out_edges[u];
    let at = view_position(out, t as usize);
    let new_out = after.out_edges[u];
    assert forall|a: int, b: int|
        0 <= a < new_out.len() && 0 <= b < new_out.len() && (#[trigger] new_out[a]).0 == (
        #[trigger] new_out[b]).0 implies a == b by {
        assert(out[a].0 == out[b].0);
    }
    assert forall|x: int, j: int|
        0 <= x < after.slots.len() && 0 <= j < after.out_edges[x].len() implies after.edge_ok(
        x,
        #[trigger] after.out_edges[x][j],
    ) by {
        let old_edge = g.out_edges[x][j];
        assert(old_edge.0 == after.out_edges[x][j].0);
    }
    assert forall|v: int, j: int|
        0 <= v < after.slots.len() && 0 <= j < after.in_edges[v].len() implies after.source_ok(
        v,
        #[trigger] after.in_edges[v][j],
    ) by {
        let source = g.in_edges[v][j];
        let edges = g.out_edges[source as int];
        let p = view_position(edges, v as usize);
        assert(edges[p].0 == v);
        assert(after.out_edges[source as int][p].0 == v);
    }
}

/// One more connection between two occupied slots keeps the edges sound.
pub proof fn lemma_connect_ok<KV, V>(g: GraphView<KV, V>, u: int, t: int)
    requires
        g.edges_ok(),
        0 <= u < g.slots.len(),
        0 <= t < g.slots.len(),
        g.slots[u] is IsOccupiedBy,
        g.slots[t] is IsOccupiedBy,
        g.slots.len() <= usize::MAX,
    ensures
        g.connect(u, t).edges_ok(),
{
    let after = g.connect(u, t);
    let out = g.out_edges[u];
    let inn = g.in_edges[t];
    if u != t && view_has_key(out, t as usize) {
        let at = view_position(out, t as usize);
        if out[at].1 < u32::MAX {
            lemma_with_weight_ok(g, u, t, (out[at].1 + 1) as u32);
        }
    } else if u != t && out.len() < MAX_EDGES && inn.len() < MAX_EDGES {
        let new_out = after.out_edges[u];
        let new_in = after.in_edges[t];
        assert(!inn.contains(u as usize)) by {
            if inn.contains(u as usize) {
                let j = choose|j: int| 0 <= j < inn.len() && inn[j] == u as usize;
                assert(g.in_edges[t][j] == u as usize);
            }
        }
        assert(new_out[out.len() as int] == (t as usize, 1u32));
        assert(new_in[inn.len() as int] == u as usize);
        assert forall|a: int, b: int|
            0 <= a < new_out.len() && 0 <= b < new_out.len() && (#[trigger] new_out[a]).0 == (
            #[trigger] new_out[b]).0 implies a == b by {
            if a < out.len() {
                assert(out[a].0 == new_out[a].0);
            }
            if b < out.len() {
                assert(out[b].0 == new_out[b].0);
            }
        }
        assert forall|x: int|
            0 <= x < after.slots.len() implies {
            &&& (#[trigger] after.out_edges[x]).len() <= MAX_EDGES
            &&& view_keys_distinct(after.out_edges[x])
        } by {
            if x != u {
                assert(after.out_edges[x] == g.out_edges[x]);
            }
        }
        assert forall|x: int|
            0 <= x < after.slots.len() implies {
            &&& (#[trigger] after.in_edges[x]).len() <= MAX_EDGES
            &&& after.in_edges[x].no_duplicates()
        } by {
            if x != t {
                assert(after.in_edges[x] == g.in_edges[x]);
            }
        }
        assert forall|x: int, j: int|
            0 <= x < after.slots.len() && 0 <= j < after.out_edges[x].len() implies after.edge_ok(
            x,
            #[trigger] after.out_edges[x][j],
        ) by {
            if x == u && j == out.len() {
                assert(new_in[inn.len() as int] == u as usize);
            } else {
                let edge = g.out_edges[x][j];
                assert(edge == after.out_edges[x][j]);
                let sources = g.in_edges[edge.0 as int];
                let p = choose|p: int| 0 <= p < sources.len() && sources[p] == x as usize;
                assert(after.in_edges[edge.0 as int][p] == x as usize);
            }
        }
        assert forall|v: int, j: int|
            0 <= v < after.slots.len() && 0 <= j < after.in_edges[v].len() implies after.source_ok(
            v,
            #[trigger] after.in_edges[v][j],
        ) by {
            if v == t && j == inn.len() {
                assert(new_out[out.len() as int].0 == t as usize);
            } else {
                let source = g.in_edges[v][j];
                assert(source == after.in_edges[v][j]);
                let edges = g.out_edges[source as int];
                let p = view_position(edges, v as usize);
                assert(edges[p].0 == v);
                assert(after.out_edges[source as int][p].0 == v);
            }
        }
    }
}

/// Severing an edge keeps the edges sound.
pub proof fn lemma_sever_ok<KV, V>(g: GraphView<KV, V>, u: int, t: int)
    requires
        g.edges_ok(),
        0 <= u < g.slots.len(),
        0 <= t <= usize::MAX,
        g.slots.len() <= usize::MAX,
    ensures
        g.sever(u, t).edges_ok(),
        view_has_key(g.out_edges[u], t as usize) ==> {
            &&& t < g.slots.len()
            &&& t != u
            &&& g.slots[t] is IsOccupiedBy
            &&& g.in_edges[t].contains(u as usize)
            &&& g.sever(u, t).out_edges[u].len() == g.out_edges[u].len() - 1
            &&& g.sever(u, t).in_edges[t].len() == g.in_edges[t].len() - 1
            &&& !view_has_key(g.sever(u, t).out_edges[u], t as usize)
            &&& !g.sever(u, t).in_edges[t].contains(u as usize)
        },
{
    let after = g.sever(u, t);
    let out = g.out_edges[u];
    if view_has_key(out, t as usize) {
        let at = view_position(out, t as usize);
        assert(g.out_edges[u][at].0 == t);
        let inn = g.in_edges[t];
        let idx = inn.index_of(u as usize);
        assert(inn[idx] == u as usize);
        let new_out = after.out_edges[u];
        let new_in = after.in_edges[t];
        assert forall|a: int, b: int|
            0 <= a < new_out.len() && 0 <= b < new_out.len() && (#[trigger] new_out[a]).0 == (
            #[trigger] new_out[b]).0 implies a == b by {
            let a0 = if a < at { a } else { a + 1 };
            let b0 = if b < at { b } else { b + 1 };
            assert(out[a0].0 == out[b0].0);
        }
        assert(new_in.no_duplicates()) by {
            assert forall|a: int, b: int|
                0 <= a < new_in.len() && 0 <= b < new_in.len() && a != b implies new_in[a]
                != new_in[b] by {
                let a0 = if a < idx { a } else { a + 1 };
                let b0 = if b < idx { b } else { b + 1 };
                assert(new_in[a] == inn[a0]);
                assert(new_in[b] == inn[b0]);
            }
        }
        assert forall|x: int|
            0 <= x < after.slots.len() implies {
            &&& (#[trigger] after.out_edges[x]).len() <= MAX_EDGES
            &&& view_keys_distinct(after.out_edges[x])
        } by {
            if x != u {
                assert(after.out_edges[x] == g.out_edges[x]);
            }
        }
        assert forall|x: int|
            0 <= x < after.slots.len() implies {
            &&& (#[trigger] after.in_edges[x]).len() <= MAX_EDGES
            &&& after.in_edges[x].no_duplicates()
        } by {
            if x != t {
                assert(after.in_edges[x] == g.in_edges[x]);
            }
        }
        assert forall|x: int, j: int|
            0 <= x < after.slots.len() && 0 <= j < after.out_edges[x].len() implies after.edge_ok(
            x,
            #[trigger] after.out_edges[x][j],
        ) by {
            let j0 = if x == u && j >= at { j + 1 } else { j };
            let edge = g.out_edges[x][j0];
            assert(edge == after.out_edges[x][j]);
            let sources = g.in_edges[edge.0 as int];
            let p = choose|p: int| 0 <= p < sources.len() && sources[p] == x as usize;
            if edge.0 == t {
                assert(x != u) by {
                    if x == u {
                        assert(out[j0].0 == out[at].0);
                    }
                }
                let now = if p < idx { p } else { p - 1 };
                assert(new_in[now] == x as usize);
            } else {
                assert(after.in_edges[edge.0 as int][p] == x as usize);
            }
        }
        assert forall|v: int, j: int|
            0 <= v < after.slots.len() && 0 <= j < after.in_edges[v].len() implies after.source_ok(
            v,
            #[trigger] after.in_edges[v][j],
        ) by {
            let j0 = if v == t && j >= idx { j + 1 } else { j };
            let source = g.in_edges[v][j0];
            assert(source == after.in_edges[v][j]);
            let edges = g.out_edges[source as int];
            let p = view_position(edges, v as usize);
            assert(edges[p].0 == v);
            if source == u {
                assert(v != t);
                let now = if p < at { p } else { p - 1 };
                assert(new_out[now].0 == v);
            } else {
                assert(after.out_edges[source as int][p].0 == v);
            }
        }
        assert(!view_has_key(new_out, t as usize)) by {
            if view_has_key(new_out, t as usize) {
                let p = view_position(new_out, t as usize);
                let was = if p < at { p } else { p + 1 };
                assert(new_out[p].0 == out[was].0);
                assert(out[was].0 == out[at].0);
            }
        }
        assert(!new_in.contains(u as usize)) by {
            if new_in.contains(u as usize) {
                let p = choose|p: int| 0 <= p < new_in.len() && new_in[p] == u as usize;
                let was = if p < idx { p } else { p + 1 };
                assert(new_in[p] == inn[was]);
            }
        }
    }
}

/// Taking 1 from the weight of an edge keeps the edges sound.
pub proof fn lemma_disconnect_ok<KV, V>(g: GraphView<KV, V>, u: int, t: int)
    requires
        g.edges_ok(),
        0 <= u < g.slots.len(),
        0 <= t <= usize::MAX,
        g.slots.len() <= usize::MAX,
    ensures
        g.disconnect(u, t).edges_ok(),
{
    let out = g.out_edges[u];
    if view_has_key(out, t as usize) {
        let at = view_position(out, t as usize);
        if out[at].1 <= 1 {
            lemma_sever_ok(g, u, t);
        } else {
            lemma_with_weight_ok(g, u, t, (out[at].1 - 1) as u32);
        }
    }
}

/// One more connection adds 1 to the weight of the edge, where the edge
/// exists or both of its ends can take it, and changes no other edge.
pub proof fn lemma_connect_weight<KV, V>(g: GraphView<KV, V>, u: int, t: int)
    requires
        g.edges_ok(),
        0 <= u < g.slots.len(),
        0 <= t < g.slots.len(),
        u != t,
        g.slots.len() <= usize::MAX,
        g.weight_at(u, t) > 0 || (g.out_edges[u].len() < MAX_EDGES && g.in_edges[t].len()
            < MAX_EDGES),
    ensures
        g.connect(u, t).weight_at(u, t) == if g.weight_at(u, t) < u32::MAX {
            (g.weight_at(u, t) + 1) as u32
        } else {
            g.weight_at(u, t)
        },
        g.connect(u, t).in_edges[t].contains(u as usize),
        forall|a: int, b: int|
            0 <= a < g.slots.len() && 0 <= b < g.slots.len() && (a != u || b != t) ==> g.connect(
                u,
                t,
            ).weight_at(a, b) == g.weight_at(a, b),
{
    let after = g.connect(u, t);
    let out = g.out_edges[u];
    let new_out = after.out_edges[u];
    if view_has_key(out, t as usize) {
        let at = view_position(out, t as usize);
        assert(out[at].0 == t);
        assert(new_out[at].0 == t);
        let p = view_position(new_out, t as usize);
        assert(new_out[p].0 == t);
        assert(out[p].0 == out[at].0);
        assert(g.out_edges[u][at].1 > 0);
        assert(g.in_edges[g.out_edges[u][at].0 as int].contains(u as usize));
    } else {
        assert(new_out[out.len() as int].0 == t);
        let p = view_position(new_out, t as usize);
        assert(new_out[p].0 == t);
        if p < out.len() {
            assert(out[p].0 == t);
        }
        assert(after.in_edges[t][g.in_edges[t].len() as int] == u as usize);
    }
    assert forall|a: int, b: int|
        0 <= a < g.slots.len() && 0 <= b < g.slots.len() && (a != u || b != t) implies after.weight_at(
        a,
        b,
    ) == g.weight_at(a, b) by {
        if a == u {
            if view_has_key(out, b as usize) {
                let q = view_position(out, b as usize);
                assert(out[q].0 == b);
                assert(new_out[q].0 == b);
                let q1 = view_position(new_out, b as usize);
                assert(new_out[q1].0 == b);
                if q1 < out.len() {
                    assert(out[q1].0 == out[q].0);
                }
            }
            if view_has_key(new_out, b as usize) {
                let q1 = view_position(new_out, b as usize);
                assert(new_out[q1].0 == b);
                if q1 < out.len() {
                    assert(out[q1].0 == b);
                }
            }
        }
    }
}

/// Taking 1 from the weight of an edge leaves it with 1 less, and severs it
/// at both ends when nothing is left. No other edge changes.
pub proof fn lemma_disconnect_weight<KV, V>(g: GraphView<KV, V>, u: int, t: int)
    requires
        g.edges_ok(),
        0 <= u < g.slots.len(),
        0 <= t < g.slots.len(),
        g.slots.len() <= usize::MAX,
    ensures
        g.disconnect(u, t).weight_at(u, t) == if g.weight_at(u, t) > 0 {
            (g.weight_at(u, t) - 1) as u32
        } else {
            0
        },
        g.weight_at(u, t) <= 1 ==> !view_has_key(g.disconnect(u, t).out_edges[u], t as usize)
            && !g.disconnect(u, t).in_edges[t].contains(u as usize),
        forall|a: int, b: int|
            0 <= a < g.slots.len() && 0 <= b < g.slots.len() && (a != u || b != t) ==> g.disconnect(
                u,
                t,
            ).weight_at(a, b) == g.weight_at(a, b),
{
    let after = g.disconnect(u, t);
    let out = g.out_edges[u];
    let new_out = after.out_edges[u];
    if view_has_key(out, t as usize) {
        let at = view_position(out, t as usize);
        assert(out[at].0 == t);
        assert(g.out_edges[u][at].1 > 0);
        if out[at].1 <= 1 {
            lemma_sever_ok(g, u, t);
            assert forall|a: int, b: int|
                0 <= a < g.slots.len() && 0 <= b < g.slots.len() && (a != u || b != t) implies after.weight_at(
                a,
                b,
            ) == g.weight_at(a, b) by {
                if a == u {
                    if view_has_key(out, b as usize) {
                        let q = view_position(out, b as usize);
                        assert(out[q].0 == b);
                        let q1 = if q < at { q } else { q - 1 };
                        assert(new_out[q1].0 == b);
                        let q2 = view_position(new_out, b as usize);
                        assert(new_out[q2].0 == b);
                        let q3 = if q2 < at { q2 } else { q2 + 1 };
                        assert(out[q3].0 == out[q].0);
                    }
                    if view_has_key(new_out, b as usize) {
                        let q2 = view_position(new_out, b as usize);
                        assert(new_out[q2].0 == b);
                        let q3 = if q2 < at { q2 } else { q2 + 1 };
                        assert(out[q3].0 == b);
                    }
                }
            }
        } else {
            assert(new_out[at].0 == t);
            let p = view_position(new_out, t as usize);
            assert(new_out[p].0 == t);
            assert(out[p].0 == out[at].0);
            assert forall|a: int, b: int|
                0 <= a < g.slots.len() && 0 <= b < g.slots.len() && (a != u || b != t) implies after.weight_at(
                a,
                b,
            ) == g.weight_at(a, b) by {
                if a == u {
                    if view_has_key(out, b as usize) {
                        let q = view_position(out, b as usize);
                        assert(out[q].0 == b);
                        assert(new_out[q].0 == b);
                        let q1 = view_position(new_out, b as usize);
                        assert(new_out[q1].0 == b);
                        assert(out[q1].0 == out[q].0);
                    }
                    if view_has_key(new_out, b as usize) {
                        let q1 = view_position(new_out, b as usize);
                        assert(new_out[q1].0 == b);
                        assert(out[q1].0 == b);
                    }
                }
            }
        }
    } else {
        if g.in_edges[t].contains(u as usize) {
            let j = choose|j: int| 0 <= j < g.in_edges[t].len() && g.in_edges[t][j] == u as usize;
            assert(g.in_edges[t][j] == u as usize);
        }
    }
}

/// Severing the edges that leave a slot keeps the edges sound. The slot then
/// has no outgoing edge; the nodes and the edges that enter the slot stay.
pub proof fn lemma_sever_out<KV, V>(g: GraphView<KV, V>, u: int)
    requires
        g.edges_ok(),
        0 <= u < g.slots.len(),
        g.slots.len() <= usize::MAX,
    ensures
        g.sever_out(u).edges_ok(),
        g.sever_out(u).slots == g.slots,
        g.sever_out(u).order == g.order,
        g.sever_out(u).out_edges[u].len() == 0,
        g.sever_out(u).in_edges[u] == g.in_edges[u],
    decreases g.out_edges[u].len(),
{
    let out = g.out_edges[u];
    if out.len() > 0 {
        let t = out[0].0 as int;
        lemma_sever_ok(g, u, t);
        lemma_sever_out(g.sever(u, t), u);
    }
}

/// Severing the edges that enter a slot keeps the edges sound. No edge then
/// enters the slot; the nodes and the edges that leave the slot stay.
pub proof fn lemma_sever_in<KV, V>(g: GraphView<KV, V>, v: int)
    requires
        g.edges_ok(),
        0 <= v < g.slots.len(),
        g.slots.len() <= usize::MAX,
    ensures
        g.sever_in(v).edges_ok(),
        g.sever_in(v).slots == g.slots,
        g.sever_in(v).order == g.order,
        g.sever_in(v).in_edges[v].len() == 0,
        g.sever_in(v).out_edges[v] == g.out_edges[v],
    decreases g.in_edges[v].len(),
{
    let inn = g.in_edges[v];
    if inn.len() > 0 {
        let s = inn[0] as int;
        lemma_sever_ok(g, s, v);
        lemma_sever_in(g.sever(s, v), v);
    }
}

/// In a sound graph no edge leaves or enters a slot that is not occupied.
pub proof fn lemma_no_edge_at_free_slot<KV, V>(g: GraphView<KV, V>, i: int)
    requires
        g.edges_ok(),
        0 <= i < g.slots.len(),
        !(g.slots[i] is IsOccupiedBy),
    ensures
        g.out_edges[i].len() == 0,
        g.in_edges[i].len() == 0,
        forall|x: int, j: int|
            0 <= x < g.slots.len() && 0 <= j < g.out_edges[x].len() ==> (
            #[trigger] g.out_edges[x][j]).0 != i,
        forall|x: int, j: int|
            0 <= x < g.slots.len() && 0 <= j < g.in_edges[x].len() ==> (
            #[trigger] g.in_edges[x][j]) != i,
{
}

} // verus!
