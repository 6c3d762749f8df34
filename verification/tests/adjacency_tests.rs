use hash_collections::adjacency::Graph;

fn text(value: &str) -> String {
    value.to_string()
}

fn shape(graph: &Graph) -> Vec<(String, Vec<usize>, Vec<usize>)> {
    graph
        .nodes()
        .iter()
        .map(|node| {
            (node.value().clone(), node.connected_to().clone(), node.connected_from().clone())
        })
        .collect()
}

#[test]
fn nodes_are_added_once_and_connected_once() {
    let mut graph = Graph::new();
    graph.add_nodes_and_connect(text("foo"), vec![text("bar"), text("baz")]);
    graph.add_nodes_and_connect(text("baz"), vec![text("bar"), text("boo")]);
    graph.add_nodes_and_connect(text("bat"), vec![text("boo"), text("foo")]);

    assert_eq!(
        shape(&graph),
        vec![
            (text("foo"), vec![1, 2], vec![4]),
            (text("bar"), vec![], vec![0, 2]),
            (text("baz"), vec![1, 3], vec![0]),
            (text("boo"), vec![], vec![2, 4]),
            (text("bat"), vec![3, 0], vec![]),
        ]
    );

    graph.add_nodes_and_connect(text("foo"), vec![text("bar"), text("foo"), text("bar")]);
    assert_eq!(graph.nodes().len(), 5);
    assert_eq!(graph.nodes()[0].connected_to(), &vec![1, 2]);
    assert_eq!(graph.nodes()[0].connected_from(), &vec![4]);
    assert_eq!(graph.nodes()[1].connected_from(), &vec![0, 2]);
}

#[test]
fn a_value_is_found_where_it_was_added() {
    let mut graph = Graph::new();
    assert_eq!(graph._insert_or_get(text("a")), 0);
    assert_eq!(graph._insert_or_get(text("b")), 1);
    assert_eq!(graph._insert_or_get(text("a")), 0);
    assert_eq!(graph._insert_or_get(text("c")), 2);
    assert_eq!(graph._insert_or_get(text("b")), 1);
    assert_eq!(graph.nodes().len(), 3);
    assert_eq!(graph.nodes()[2].value(), "c");
    assert!(graph.nodes()[2].connected_to().is_empty());
}
