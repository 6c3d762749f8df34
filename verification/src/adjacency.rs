use vstd::prelude::*;

verus! {

/// A node of an adjacency-list graph: its value, the nodes it is connected
/// to, and the nodes that are connected to it, each by its position.
pub struct Node {
    value: String,
    connected_to: Vec<usize>,
    connected_from: Vec<usize>,
}

/// What a node stands for.
pub struct NodeView {
    pub value: Seq<char>,
    pub connected_to: Seq<usize>,
    pub connected_from: Seq<usize>,
}

impl View for Node {
    type V = NodeView;

    closed spec fn view(&self) -> NodeView {
        NodeView {
            value: self.value@,
            connected_to: self.connected_to@,
            connected_from: self.connected_from@,
        }
    }
}

impl Node {
    pub fn value(&self) -> (value: &String)
        ensures
            value@ == self@.value,
    {
        &self.value
    }

    pub fn connected_to(&self) -> (targets: &Vec<usize>)
        ensures
            targets@ == self@.connected_to,
    {
        &self.connected_to
    }

    pub fn connected_from(&self) -> (sources: &Vec<usize>)
        ensures
            sources@ == self@.connected_from,
    {
        &self.connected_from
    }
}

/// A graph that keeps its nodes in a list, in the order in which they came,
/// and finds a node by going through the list.
pub struct Graph {
    nodes: Vec<Node>,
}

/// Whether some node of `nodes` has the value `value`.
pub open spec fn has_value(nodes: Seq<NodeView>, value: Seq<char>) -> bool {
    exists|i: int| 0 <= i < nodes.len() && (#[trigger] nodes[i]).value == value
}

/// The position of the node with the value `value`, where there is one.
pub open spec fn position_of(nodes: Seq<NodeView>, value: Seq<char>) -> int {
    choose|i: int| 0 <= i < nodes.len() && (#[trigger] nodes[i]).value == value
}

/// The nodes after a node with the value `value` was asked for: one is
/// added at the end where there is none yet.
pub open spec fn with_value(nodes: Seq<NodeView>, value: Seq<char>) -> Seq<NodeView> {
    if has_value(nodes, value) {
        nodes
    } else {
        nodes.push(
            NodeView { value, connected_to: Seq::empty(), connected_from: Seq::empty() },
        )
    }
}

/// `list` with `x` at its end, unless it holds `x` already.
pub open spec fn with_member(list: Seq<usize>, x: usize) -> Seq<usize> {
    if list.contains(x) {
        list
    } else {
        list.push(x)
    }
}

/// The nodes after the node at `index` was connected to the node at
/// `target`. A node is not connected to itself, and no connection is kept
/// twice.
pub open spec fn linked(nodes: Seq<NodeView>, index: int, target: int) -> Seq<NodeView> {
    if index == target {
        nodes
    } else {
        let first = nodes.update(
            index,
            NodeView {
                connected_to: with_member(nodes[index].connected_to, target as usize),
                ..nodes[index]
            },
        );
        first.update(
            target,
            NodeView {
                connected_from: with_member(first[target].connected_from, index as usize),
                ..first[target]
            },
        )
    }
}

/// The nodes after the node at `index` was connected to a node for each
/// value of `targets`, in turn; nodes are added for the values that have
/// none.
pub open spec fn linked_to_all(nodes: Seq<NodeView>, index: int, targets: Seq<Seq<char>>) -> Seq<
    NodeView,
>
    decreases targets.len(),
{
    if targets.len() == 0 {
        nodes
    } else {
        let added = with_value(nodes, targets[0]);
        linked_to_all(
            linked(added, index, position_of(added, targets[0])),
            index,
            targets.drop_first(),
        )
    }
}

/// The values of `nodes` are distinct, and the connections are positions of
/// nodes.
pub open spec fn nodes_ok(nodes: Seq<NodeView>) -> bool {
    &&& nodes.len() <= usize::MAX
    &&& forall|i: int, j: int|
        0 <= i < nodes.len() && 0 <= j < nodes.len() && (#[trigger] nodes[i]).value == (
        #[trigger] nodes[j]).value ==> i == j
    &&& forall|i: int, k: int|
        0 <= i < nodes.len() && 0 <= k < nodes[i].connected_to.len() ==> (
        #[trigger] nodes[i].connected_to[k]) < nodes.len()
    &&& forall|i: int, k: int|
        0 <= i < nodes.len() && 0 <= k < nodes[i].connected_from.len() ==> (
        #[trigger] nodes[i].connected_from[k]) < nodes.len()
}

/// Whether `list` holds `x`.
fn holds(list: &Vec<usize>, x: usize) -> (found: bool)
    ensures
        found == list@.contains(x),
{
    let mut i: usize = 0;
    while i < list.len()
        invariant
            i <= list.len(),
            forall|k: int| 0 <= k < i ==> list@[k] != x,
        decreases list.len() - i,
    {
        if list[i] == x {
            return true;
        }
        i += 1;
    }
    false
}

impl Graph {
    /// The nodes of the graph, in the order in which they came.
    pub closed spec fn view(&self) -> Seq<NodeView> {
        self.nodes@.map_values(|node: Node| node@)
    }

    /// The invariant of the graph.
    pub open spec fn wf(&self) -> bool {
        nodes_ok(self@)
    }

    pub fn new() -> (graph: Self)
        ensures
            graph.wf(),
            graph@ == Seq::<NodeView>::empty(),
    {
        let graph = Graph { nodes: Vec::new() };
        graph
    }

    /// The nodes.
    pub fn nodes(&self) -> (nodes: &Vec<Node>)
        ensures
            nodes@.map_values(|node: Node| node@) == self@,
    {
        &self.nodes
    }

    /// The position of the node with the value `value`, which is added at
    /// the end if the graph has none.
    pub fn _insert_or_get(&mut self, value: String) -> (index: usize)
        requires
            old(self).wf(),
            old(self)@.len() < usize::MAX,
        ensures
            final(self).wf(),
            final(self)@ == with_value(old(self)@, value@),
            index == position_of(final(self)@, value@),
            index < final(self)@.len(),
            final(self)@[index as int].value == value@,
            final(self)@.len() <= old(self)@.len() + 1,
    {
        let mut i: usize = 0;
        while i < self.nodes.len()
            invariant
                i <= self.nodes.len(),
                *self == *old(self),
                self.wf(),
                forall|k: int| 0 <= k < i ==> (#[trigger] self@[k]).value != value@,
            decreases self.nodes.len() - i,
        {
            if self.nodes[i].value == value {
                assert(self@[i as int].value == value@);
                return i;
            }
            i += 1;
        }
        let i = self.nodes.len();
        self.nodes.push(Node { value, connected_to: Vec::new(), connected_from: Vec::new() });
        proof {
            let added = NodeView {
                value: value@,
                connected_to: Seq::empty(),
                connected_from: Seq::empty(),
            };
            assert(self@ =~= old(self)@.push(added));
            assert(self@[i as int].value == value@);
        }
        i
    }

    /// Connects the node at `index` to the node at `target_index`.
    fn link(&mut self, index: usize, target_index: usize)
        requires
            old(self).wf(),
            index < old(self)@.len(),
            target_index < old(self)@.len(),
        ensures
            final(self).wf(),
            final(self)@ == linked(old(self)@, index as int, target_index as int),
            final(self)@.len() == old(self)@.len(),
            forall|i: int|
                0 <= i < final(self)@.len() ==> (#[trigger] final(self)@[i]).value == old(
                    self,
                )@[i].value,
    {
        if index != target_index {
            if !holds(&self.nodes[index].connected_to, target_index) {
                self.nodes[index].connected_to.push(target_index);
            }
            let ghost first = self@;
            if !holds(&self.nodes[target_index].connected_from, index) {
                self.nodes[target_index].connected_from.push(index);
            }
            proof {
                let before = old(self)@;
                let expected_first = before.update(
                    index as int,
                    NodeView {
                        connected_to: with_member(before[index as int].connected_to, target_index),
                        ..before[index as int]
                    },
                );
                assert(first =~= expected_first);
                assert(self@ =~= linked(before, index as int, target_index as int));
                assert forall|a: int, k: int|
                    0 <= a < self@.len() && 0 <= k < self@[a].connected_to.len() implies (
                #[trigger] self@[a].connected_to[k]) < self@.len() by {
                    if !(a == index && k >= before[a].connected_to.len()) {
                        assert(self@[a].connected_to[k] == before[a].connected_to[k]);
                    }
                }
                assert forall|a: int, k: int|
                    0 <= a < self@.len() && 0 <= k < self@[a].connected_from.len() implies (
                #[trigger] self@[a].connected_from[k]) < self@.len() by {
                    if !(a == target_index && k >= before[a].connected_from.len()) {
                        assert(self@[a].connected_from[k] == before[a].connected_from[k]);
                    }
                }
                assert forall|a: int, b: int|
                    0 <= a < self@.len() && 0 <= b < self@.len() && (#[trigger] self@[a]).value == (
                    #[trigger] self@[b]).value implies a == b by {
                    assert(before[a].value == self@[a].value);
                    assert(before[b].value == self@[b].value);
                }
            }
        }
    }

    /// Makes sure that the graph has a node with the value `value` and one
    /// for each value of `connect_to`, and connects the first to each of the
    /// others.
    pub fn add_nodes_and_connect(&mut self, value: String, connect_to: Vec<String>)
        requires
            old(self).wf(),
            old(self)@.len() + connect_to@.len() + 1 <= usize::MAX,
        ensures
            final(self).wf(),
            final(self)@ == linked_to_all(
                with_value(old(self)@, value@),
                position_of(with_value(old(self)@, value@), value@),
                connect_to@.map_values(|target: String| target@),
            ),
    {
        let ghost targets = connect_to@.map_values(|target: String| target@);
        let ghost items = connect_to@;
        let index = self._insert_or_get(value);
        let ghost start = self@;
        let ghost mut done: int = 0;
        assert(targets.subrange(0, targets.len() as int) =~= targets);
        for target_value in iter: connect_to
            invariant
                iter.seq() == items,
                done == iter.index(),
                targets == items.map_values(|target: String| target@),
                self.wf(),
                index < self@.len(),
                self@.len() <= start.len() + done,
                start.len() + items.len() <= usize::MAX,
                linked_to_all(start, index as int, targets) == linked_to_all(
                    self@,
                    index as int,
                    targets.subrange(done, targets.len() as int),
                ),
        {
            let ghost rest = targets.subrange(done, targets.len() as int);
            assert(rest.drop_first() =~= targets.subrange(done + 1, targets.len() as int));
            let target_index = self._insert_or_get(target_value);
            self.link(index, target_index);
            proof {
                done = done + 1;
            }
        }
    }
}

} // verus!
