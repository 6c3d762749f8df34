use hash_collections::hash_graph::{FixedSizeHashGraphImpl, FixedSizeHashGraphMap};
use hash_collections::hashing::KeyHasher;

type MyGraph = FixedSizeHashGraphMap<String, (), 97>;

#[test]
fn graph_tests_insert_edges_once() {
    let mut graph = MyGraph::new();
    let _ = graph.insert(
        ("foo".to_string(), ()),
        vec![("bar".to_string(), ()), ("baz".to_string(), ())],
    );

    assert_eq!(
        graph
            .node(&"foo".to_string())
            .map_or(0, |node| node.out_edge_weight(&"bar".to_string())),
        1
    );
    assert_eq!(
        graph
            .node(&"foo".to_string())
            .map_or(0, |node| node.out_edge_weight(&"baz".to_string())),
        1
    );
}

#[test]
fn graph_tests_insert_edges_multiple_times() {
    let mut graph = MyGraph::new();
    let _ = graph.insert(
        ("foo".to_string(), ()),
        vec![
            ("bar".to_string(), ()),
            ("baz".to_string(), ()),
            ("bar".to_string(), ()),
        ],
    );

    assert_eq!(
        graph
            .node(&"foo".to_string())
            .map_or(0, |node| node.out_edge_weight(&"bar".to_string())),
        2
    );
    assert_eq!(
        graph
            .node(&"foo".to_string())
            .map_or(0, |node| node.out_edge_weight(&"baz".to_string())),
        1
    );
}

#[test]
fn insert_edges_once() {
    let mut graph = MyGraph::new();
    let _ = graph.insert(
        ("foo".to_string(), ()),
        vec![("bar".to_string(), ()), ("baz".to_string(), ())],
    );

    assert_eq!(
        graph.node(&"foo".to_string()).map_or(0, |node| node.out_edge_weight(&"bar".to_string())),
        1
    );
    assert_eq!(
        graph.node(&"foo".to_string()).map_or(0, |node| node.out_edge_weight(&"baz".to_string())),
        1
    );
}

#[test]
fn insert_edges_multiple_times() {
    let mut graph = MyGraph::new();
    let _ = graph.insert(
        ("foo".to_string(), ()),
        vec![
            ("bar".to_string(), ()),
            ("baz".to_string(), ()),
            ("bar".to_string(), ()),
        ],
    );

    assert_eq!(
        graph.node(&"foo".to_string()).map_or(0, |node| node.out_edge_weight(&"bar".to_string())),
        2
    );
    assert_eq!(
        graph.node(&"foo".to_string()).map_or(0, |node| node.out_edge_weight(&"baz".to_string())),
        1
    );
}

#[test]
fn multiple_nodes_and_edges() {
    let mut graph = FixedSizeHashGraphMap::<String, u64, 97>::new();

    let _ = graph.insert(
        ("foo".to_string(), 100),
        vec![("bar".to_string(), 200), ("baz".to_string(), 300)],
    );
    let _ = graph.insert(
        ("bat".to_string(), 400),
        vec![("boo".to_string(), 500), ("foo".to_string(), 1000)],
    );
    graph.connect_to(&"boo".to_string(), vec![&"baz".to_string(), &"foo".to_string()]);
    graph.connect_to(&"foo".to_string(), vec![&"bar".to_string(), &"bar".to_string()]);

    assert_eq!(graph.out_edge_weight(&"foo".to_string(), &"bar".to_string()), 3);
    assert_eq!(graph.out_edge_weight(&"foo".to_string(), &"baz".to_string()), 1);
    assert_eq!(graph.out_edge_weight(&"bat".to_string(), &"boo".to_string()), 1);
    assert_eq!(graph.out_edge_weight(&"bat".to_string(), &"foo".to_string()), 1);
    assert_eq!(graph.out_edge_weight(&"boo".to_string(), &"foo".to_string()), 1);
    assert_eq!(graph.out_edge_weight(&"boo".to_string(), &"baz".to_string()), 1);
    assert_eq!(graph.out_edge_weight(&"bat".to_string(), &"bar".to_string()), 0);
    assert_eq!(graph.out_edge_weight(&"bat".to_string(), &"baz".to_string()), 0);
}

fn key(name: &str) -> String {
    name.to_string()
}

fn edges_of(graph: &FixedSizeHashGraphMap<String, u64, 97>, name: &str) -> Vec<(String, u64, u32)> {
    let mut edges = Vec::new();
    let mut iter = graph.iter_out_edges(&key(name));
    while let Some((node, weight)) = iter.next() {
        edges.push((node.key().clone(), *node.value(), weight));
    }
    edges
}

#[test]
fn graph_scenario_with_a_second_insert() {
    let mut graph = FixedSizeHashGraphMap::<String, u64, 97>::new();
    assert!(graph.insert((key("foo"), 0), vec![(key("bar"), 0), (key("baz"), 0)]).is_ok());
    assert!(graph.insert((key("foo"), 0), vec![(key("bar"), 0)]).is_ok());
    assert_eq!(graph.out_edge_weight(&key("foo"), &key("bar")), 2);
    assert_eq!(graph.out_edge_weight(&key("foo"), &key("baz")), 1);
    assert_eq!(graph.size(), 3);
}

#[test]
fn weight_counts_the_connections_and_disconnections() {
    let mut graph = FixedSizeHashGraphMap::<String, u64, 97>::new();
    for round in 1..=5u32 {
        assert!(graph.insert((key("a"), 1), vec![(key("b"), 2)]).is_ok());
        assert_eq!(graph.out_edge_weight(&key("a"), &key("b")), round);
    }
    assert_eq!(graph.out_edge_weight(&key("b"), &key("a")), 0);
    for round in 1..=4u32 {
        graph.disconnect_from(&key("a"), vec![&key("b")]);
        assert_eq!(graph.out_edge_weight(&key("a"), &key("b")), 5 - round);
    }
    assert_eq!(edges_of(&graph, "a"), vec![(key("b"), 2, 1)]);
    graph.disconnect_from(&key("a"), vec![&key("b")]);
    assert_eq!(graph.out_edge_weight(&key("a"), &key("b")), 0);
    assert!(edges_of(&graph, "a").is_empty());
    graph.disconnect_from(&key("a"), vec![&key("b")]);
    assert_eq!(graph.out_edge_weight(&key("a"), &key("b")), 0);
    assert_eq!(graph.size(), 2);
}

#[test]
fn a_node_is_not_connected_to_itself() {
    let mut graph = FixedSizeHashGraphMap::<String, u64, 97>::new();
    assert!(graph.insert((key("a"), 1), vec![(key("a"), 7), (key("b"), 2)]).is_ok());
    assert_eq!(graph.out_edge_weight(&key("a"), &key("a")), 0);
    assert_eq!(graph.out_edge_weight(&key("a"), &key("b")), 1);
    assert_eq!(graph.node(&key("a")).map(|node| *node.value()), Some(7));
    graph.connect_to(&key("a"), vec![&key("a")]);
    assert_eq!(graph.out_edge_weight(&key("a"), &key("a")), 0);
    assert_eq!(graph.size(), 2);
}

#[test]
fn connect_to_passes_over_unknown_keys() {
    let mut graph = FixedSizeHashGraphMap::<String, u64, 97>::new();
    assert!(graph.insert((key("a"), 1), vec![(key("b"), 2)]).is_ok());
    graph.connect_to(&key("a"), vec![&key("zoo"), &key("b")]);
    assert_eq!(graph.out_edge_weight(&key("a"), &key("b")), 2);
    assert_eq!(graph.out_edge_weight(&key("a"), &key("zoo")), 0);
    graph.connect_to(&key("zoo"), vec![&key("a")]);
    assert!(graph.node(&key("zoo")).is_none());
    assert_eq!(graph.size(), 2);
}

#[test]
fn edges_come_out_in_the_order_in_which_they_were_made() {
    let mut graph = FixedSizeHashGraphMap::<String, u64, 97>::new();
    assert!(graph
        .insert((key("a"), 1), vec![(key("c"), 3), (key("b"), 2), (key("c"), 3)])
        .is_ok());
    assert_eq!(edges_of(&graph, "a"), vec![(key("c"), 3, 2), (key("b"), 2, 1)]);
    assert!(edges_of(&graph, "b").is_empty());
    assert!(edges_of(&graph, "zoo").is_empty());
    let node = graph.node(&key("a")).unwrap();
    let mut iter = node.iter_out_edges();
    assert_eq!(iter.size_hint(), (2, Some(2)));
    let first = iter.next().unwrap();
    assert_eq!((first.0.key().as_str(), first.1), ("c", 2));
    assert_eq!(iter.count(), 1);
}

#[test]
fn disconnect_all_severs_every_outgoing_edge() {
    let mut graph = FixedSizeHashGraphMap::<String, u64, 97>::new();
    assert!(graph
        .insert((key("a"), 1), vec![(key("b"), 2), (key("c"), 3), (key("b"), 2)])
        .is_ok());
    assert!(graph.insert((key("c"), 3), vec![(key("a"), 1)]).is_ok());
    graph.disconnect_all(&key("a"));
    assert_eq!(graph.out_edge_weight(&key("a"), &key("b")), 0);
    assert_eq!(graph.out_edge_weight(&key("a"), &key("c")), 0);
    assert_eq!(graph.out_edge_weight(&key("c"), &key("a")), 1);
    assert_eq!(graph.size(), 3);
    graph.disconnect_all(&key("zoo"));
    assert_eq!(graph.size(), 3);
}

#[test]
fn remove_takes_the_edges_of_the_node_with_it() {
    let mut graph = FixedSizeHashGraphMap::<String, u64, 97>::new();
    assert!(graph.insert((key("a"), 1), vec![(key("b"), 2), (key("c"), 3)]).is_ok());
    assert!(graph.insert((key("c"), 3), vec![(key("a"), 1), (key("b"), 2)]).is_ok());
    graph.remove(&key("a"));
    assert!(graph.node(&key("a")).is_none());
    assert_eq!(graph.size(), 2);
    assert_eq!(graph.out_edge_weight(&key("c"), &key("a")), 0);
    assert_eq!(graph.out_edge_weight(&key("c"), &key("b")), 1);
    assert_eq!(edges_of(&graph, "c"), vec![(key("b"), 2, 1)]);
    graph.remove(&key("a"));
    assert_eq!(graph.size(), 2);
}

struct OneSlot {}

impl KeyHasher<String> for OneSlot {
    fn hash_of(_key: vstd::seq::Seq<char>) -> u64 {
        2
    }

    fn hash(_key: &String) -> u64 {
        2
    }
}

#[test]
fn a_reused_slot_has_no_edges_of_the_node_before() {
    let mut graph = FixedSizeHashGraphImpl::<String, u64, 5, OneSlot>::new();
    assert!(graph.insert((key("a"), 1), vec![(key("b"), 2)]).is_ok());
    assert!(graph.insert((key("b"), 2), vec![(key("a"), 1)]).is_ok());
    graph.remove(&key("a"));
    assert!(graph.insert((key("d"), 4), vec![]).is_ok());
    assert_eq!(graph.out_edge_weight(&key("b"), &key("d")), 0);
    assert_eq!(graph.out_edge_weight(&key("d"), &key("b")), 0);
    assert_eq!(graph.out_edge_weight(&key("b"), &key("a")), 0);
    let mut iter = graph.iter_out_edges(&key("b"));
    assert!(iter.next().is_none());
    assert!(graph.insert((key("b"), 2), vec![(key("d"), 4)]).is_ok());
    assert_eq!(graph.out_edge_weight(&key("b"), &key("d")), 1);
}

#[test]
fn graph_insert_fails_when_a_target_finds_no_room() {
    let mut graph = FixedSizeHashGraphMap::<String, u64, 3>::new();
    assert!(graph.insert((key("a"), 1), vec![(key("b"), 2)]).is_ok());
    let failed = graph.insert(
        (key("c"), 3),
        vec![(key("a"), 10), (key("d"), 4), (key("b"), 20)],
    );
    assert_eq!(failed.map_err(|error| error.capacity), Err(3));
    assert_eq!(graph.size(), 3);
    assert_eq!(graph.out_edge_weight(&key("c"), &key("a")), 1);
    assert_eq!(graph.out_edge_weight(&key("c"), &key("b")), 0);
    assert_eq!(graph.node(&key("a")).map(|node| *node.value()), Some(10));
    assert_eq!(graph.node(&key("b")).map(|node| *node.value()), Some(2));
    assert!(graph.node(&key("d")).is_none());
    let refused = graph.insert((key("e"), 5), vec![]);
    assert_eq!(refused.map_err(|error| error.capacity), Err(3));
}

#[test]
fn a_node_takes_no_more_edges_than_its_containers_hold() {
    let mut graph = FixedSizeHashGraphMap::<u64, (), 211>::new();
    let targets: Vec<(u64, ())> = (1..=152u64).map(|target| (target, ())).collect();
    assert!(graph.insert((0, ()), targets).is_ok());
    assert_eq!(graph.size(), 153);
    assert_eq!(graph.out_edge_weight(&0, &1), 1);
    assert_eq!(graph.out_edge_weight(&0, &151), 1);
    assert_eq!(graph.out_edge_weight(&0, &152), 0);
    assert_eq!(graph.iter_out_edges(&0).count(), 151);
    graph.connect_to(&0, vec![&151, &152]);
    assert_eq!(graph.out_edge_weight(&0, &151), 2);
    assert_eq!(graph.out_edge_weight(&0, &152), 0);
    graph.disconnect_from(&0, vec![&1]);
    graph.connect_to(&0, vec![&152]);
    assert_eq!(graph.out_edge_weight(&0, &1), 0);
    assert_eq!(graph.out_edge_weight(&0, &152), 1);
}

#[test]
fn graph_rejects_a_capacity_above_the_limit() {
    assert!(FixedSizeHashGraphMap::<u64, (), 97>::try_new().is_ok());
    let refused = FixedSizeHashGraphMap::<u64, (), 50857>::try_new();
    assert_eq!(refused.map(|_| ()).map_err(|error| error.capacity), Err(50857));
    let composite = FixedSizeHashGraphMap::<u64, (), 96>::try_new();
    assert!(composite.is_err());
}
