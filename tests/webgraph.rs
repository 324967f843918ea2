use cuely::graph::GraphStore;
use cuely::webgraph::{FrozenWebgraph, Node, Webgraph, WebgraphBuilder};

fn test_graph() -> Webgraph {
    let mut graph = WebgraphBuilder::new_memory()
        .with_full_graph()
        .with_host_graph()
        .open();

    graph.insert(Node::from("A"), Node::from("B"), String::new());
    graph.insert(Node::from("B"), Node::from("C"), String::new());
    graph.insert(Node::from("A"), Node::from("C"), String::new());
    graph.insert(Node::from("C"), Node::from("A"), String::new());
    graph.insert(Node::from("D"), Node::from("C"), String::new());

    graph.flush();

    graph
}

fn terms_of(entries: &[(Node, Vec<usize>)], name: &str) -> Option<Vec<usize>> {
    entries.iter().find(|(n, _)| n.name == name).map(|(_, t)| t.clone())
}

#[test]
fn distance_calculation() {
    let graph = test_graph();

    let distances = graph.distances(Node::from("D"));

    assert_eq!(distances.get(&Node::from("C")), Some(&1));
    assert_eq!(distances.get(&Node::from("A")), Some(&2));
    assert_eq!(distances.get(&Node::from("B")), Some(&3));
}

#[test]
fn nonexisting_node() {
    let graph = test_graph();
    assert_eq!(graph.distances(Node::from("E")).len(), 0);
    assert_eq!(graph.reversed_distances(Node::from("E")).len(), 0);
}

#[test]
fn reversed_distance_calculation() {
    let graph = test_graph();

    let distances = graph.reversed_distances(Node::from("D"));

    assert_eq!(distances.get(&Node::from("C")), None);
    assert_eq!(distances.get(&Node::from("A")), None);
    assert_eq!(distances.get(&Node::from("B")), None);

    let distances = graph.reversed_distances(Node::from("A"));

    assert_eq!(distances.get(&Node::from("C")), Some(&1));
    assert_eq!(distances.get(&Node::from("D")), Some(&2));
    assert_eq!(distances.get(&Node::from("B")), Some(&2));
}

#[test]
fn merge() {
    let mut graph1 = WebgraphBuilder::new_memory()
        .with_full_graph()
        .with_host_graph()
        .open();

    graph1.insert(Node::from("A"), Node::from("B"), String::new());

    let mut graph2 = WebgraphBuilder::new_memory()
        .with_full_graph()
        .with_host_graph()
        .open();
    graph2.insert(Node::from("B"), Node::from("C"), String::new());

    graph1.merge(graph2);

    assert_eq!(
        graph1.distances(Node::from("A")).get(&Node::from("C")),
        Some(&2)
    )
}

#[test]
fn source_distance_is_zero_and_complete() {
    let graph = test_graph();
    let distances = graph.distances(Node::from("D"));
    assert_eq!(distances.get(&Node::from("D")), Some(&0));
    assert_eq!(distances.len(), 4);
    let reversed = graph.reversed_distances(Node::from("D"));
    assert_eq!(reversed.get(&Node::from("D")), Some(&0));
    assert_eq!(reversed.len(), 1);
}

#[test]
fn inserted_edge_is_mirrored() {
    let mut graph = WebgraphBuilder::new_memory().with_full_graph().open();
    graph.insert(Node::from("A"), Node::from("B"), "first".to_string());
    graph.insert(Node::from("C"), Node::from("B"), "second".to_string());
    graph.insert(Node::from("A"), Node::from("B"), "first".to_string());
    let edges = graph.ingoing_edges(Node::from("B"));
    assert_eq!(edges.len(), 3);
    assert_eq!(edges[0].from, Node::from("A"));
    assert_eq!(edges[0].to, Node::from("B"));
    assert_eq!(edges[0].label, "first");
    assert_eq!(edges[1].from, Node::from("C"));
    assert_eq!(edges[1].label, "second");
    assert_eq!(edges[2].from, Node::from("A"));
    assert!(graph.ingoing_edges(Node::from("A")).is_empty());
    assert!(graph.ingoing_edges(Node::from("Z")).is_empty());
    let forward = graph.distances(Node::from("A"));
    assert_eq!(forward.get(&Node::from("B")), Some(&1));
    let backward = graph.reversed_distances(Node::from("B"));
    assert_eq!(backward.get(&Node::from("A")), Some(&1));
    assert_eq!(backward.get(&Node::from("C")), Some(&1));
}

#[test]
fn flush_changes_nothing() {
    let mut graph = test_graph();
    let before = graph.distances(Node::from("D"));
    graph.flush();
    graph.flush();
    let after = graph.distances(Node::from("D"));
    assert_eq!(before.entries, after.entries);
    graph.insert(Node::from("E"), Node::from("D"), String::new());
    graph.flush();
    let later = graph.reversed_distances(Node::from("D"));
    assert_eq!(later.get(&Node::from("E")), Some(&1));
    assert_eq!(graph.distances(Node::from("D")).entries, before.entries);
}

#[test]
fn freeze_thaw_keeps_distances() {
    let graph = test_graph();
    let before = graph.distances(Node::from("D"));
    let frozen: FrozenWebgraph = graph.into();
    assert!(frozen.has_full());
    assert!(frozen.has_host());
    let graph: Webgraph = frozen.into();
    let distances = graph.distances(Node::from("D"));
    assert_eq!(distances.get(&Node::from("C")), Some(&1));
    assert_eq!(distances.get(&Node::from("A")), Some(&2));
    assert_eq!(distances.get(&Node::from("B")), Some(&3));
    assert_eq!(distances.entries, before.entries);
}

#[test]
fn host_projection_of_inserted_nodes() {
    let mut graph = WebgraphBuilder::new_memory()
        .with_full_graph()
        .with_host_graph()
        .open();
    graph.insert(Node::from("B.com"), Node::from("A.com"), String::new());
    graph.insert(Node::from("B.com"), Node::from("www.A.com"), String::new());
    let host = graph.host_distances(Node::from("B.com"));
    assert_eq!(host.get(&Node::from("A.com")), Some(&1));
    assert_eq!(host.get(&Node::from("www.A.com")), None);
    assert_eq!(host.len(), 2);
    let full = graph.distances(Node::from("B.com"));
    assert_eq!(full.get(&Node::from("www.A.com")), Some(&1));
    let back = graph.host_reversed_distances(Node::from("A.com"));
    assert_eq!(back.get(&Node::from("B.com")), Some(&1));
    let terms = graph.host_centrality_terms();
    assert_eq!(terms.node_count, 2);
    assert_eq!(terms_of(&terms.entries, "A.com"), Some(vec![1]));
    assert_eq!(terms_of(&terms.entries, "www.A.com"), None);
}

#[test]
fn centrality_terms_of_small_graph() {
    let graph = test_graph();
    let terms = graph.centrality_terms();
    assert_eq!(terms.node_count, 4);
    assert_eq!(terms_of(&terms.entries, "C"), Some(vec![1, 1, 1]));
    assert_eq!(terms_of(&terms.entries, "A"), Some(vec![2, 1, 2]));
    assert_eq!(terms_of(&terms.entries, "B"), Some(vec![1, 2, 3]));
    assert_eq!(terms_of(&terms.entries, "D"), None);
    assert_eq!(terms.entries.len(), 3);
}

#[test]
fn host_graph_dominance_terms() {
    let mut graph = WebgraphBuilder::new_memory()
        .with_full_graph()
        .with_host_graph()
        .open();
    for a in 1..=4 {
        for b in 1..=4 {
            if a != b {
                graph.insert(Node::from(format!("A.com/{a}").as_str()), Node::from(format!("A.com/{b}").as_str()), String::new());
            }
        }
    }
    graph.insert(Node::from("C.com"), Node::from("B.com"), String::new());
    graph.insert(Node::from("D.com"), Node::from("B.com"), String::new());
    let full = graph.centrality_terms();
    assert_eq!(full.node_count, 7);
    assert_eq!(terms_of(&full.entries, "A.com/1"), Some(vec![1, 1, 1]));
    assert_eq!(terms_of(&full.entries, "B.com"), Some(vec![1, 1]));
    let host = graph.host_centrality_terms();
    assert_eq!(host.node_count, 4);
    assert_eq!(terms_of(&host.entries, "B.com"), Some(vec![1, 1]));
    assert_eq!(terms_of(&host.entries, "A.com"), None);
}

#[test]
fn missing_projection_answers_empty() {
    let mut graph = WebgraphBuilder::new("graphs/x").with_host_graph().open();
    graph.insert(Node::from("a.com/x"), Node::from("b.com/y"), String::new());
    assert_eq!(graph.distances(Node::from("a.com/x")).len(), 0);
    assert!(graph.ingoing_edges(Node::from("b.com/y")).is_empty());
    assert_eq!(graph.centrality_terms().entries.len(), 0);
    assert_eq!(graph.host_distances(Node::from("a.com")).get(&Node::from("b.com")), Some(&1));
    assert_eq!(graph.path, "graphs/x");
}

#[test]
fn merge_takes_missing_projection() {
    let mut graph1 = WebgraphBuilder::new_memory().with_full_graph().open();
    graph1.insert(Node::from("A"), Node::from("B"), String::new());
    let mut graph2 = WebgraphBuilder::new_memory().with_full_graph().with_host_graph().open();
    graph2.insert(Node::from("x.com"), Node::from("y.com"), String::new());
    graph1.merge(graph2);
    assert_eq!(graph1.host_distances(Node::from("x.com")).get(&Node::from("y.com")), Some(&1));
    assert_eq!(graph1.distances(Node::from("A")).get(&Node::from("B")), Some(&1));
    assert_eq!(graph1.distances(Node::from("x.com")).get(&Node::from("y.com")), Some(&1));
}

#[test]
fn builder_paths() {
    let b = WebgraphBuilder::new("p").with_full_graph().with_host_graph().read_only(true);
    assert_eq!(b.full_graph_path.as_deref(), Some("p/full"));
    assert_eq!(b.host_graph_path.as_deref(), Some("p/host"));
    assert!(b.read_only);
}

#[test]
fn edge_iterator_walks_every_edge() {
    let graph = test_graph();
    let store = graph.full_graph.as_ref().unwrap();
    let mut it = store.edges();
    let mut seen = Vec::new();
    while let Some(e) = it.next() {
        seen.push((e.from, e.to));
    }
    assert_eq!(seen, vec![(0, 1), (0, 2), (1, 2), (2, 0), (3, 2)]);
    assert!(it.next().is_none());
}

#[test]
fn reopening_with_kept_stores_keeps_inserts() {
    let graph = test_graph();
    let full = graph.full_graph.as_ref().unwrap();
    let host = graph.host_graph.as_ref().unwrap();
    let full_kept = GraphStore::restore(full.node_names(), full.edge_triples()).unwrap();
    let host_kept = GraphStore::restore(host.node_names(), host.edge_triples()).unwrap();
    let reopened = WebgraphBuilder::new("memory")
        .with_full_graph()
        .with_host_graph()
        .with_stores(Some(full_kept), Some(host_kept))
        .open();
    let distances = reopened.distances(Node::from("D"));
    assert_eq!(distances.get(&Node::from("C")), Some(&1));
    assert_eq!(distances.get(&Node::from("A")), Some(&2));
    assert_eq!(distances.get(&Node::from("B")), Some(&3));
    assert_eq!(
        reopened.reversed_distances(Node::from("A")).entries,
        graph.reversed_distances(Node::from("A")).entries
    );
    assert_eq!(reopened.ingoing_edges(Node::from("C")).len(), 3);
}

#[test]
fn restore_rejects_bad_input() {
    let names = vec!["a".to_string(), "a".to_string()];
    assert!(GraphStore::restore(names, Vec::new()).is_none());
    let names = vec!["a".to_string(), "b".to_string()];
    assert!(GraphStore::restore(names, vec![(0, 2, String::new())]).is_none());
    let names = vec!["a".to_string(), "b".to_string()];
    let g = GraphStore::restore(names, vec![(1, 0, "l".to_string()), (1, 1, String::new())]).unwrap();
    assert_eq!(g.node_count(), 2);
    assert_eq!(g.outgoing_edges(1).len(), 2);
    assert_eq!(g.ingoing_edges(0)[0].from, 1);
    assert_eq!(g.reversed_edge_triples(), vec![(0, 1, "l".to_string()), (1, 1, String::new())]);
}

#[test]
fn merge_keeps_duplicates_and_adds_nothing_else() {
    let mut graph1 = WebgraphBuilder::new_memory().with_full_graph().open();
    graph1.insert(Node::from("A"), Node::from("B"), "x".to_string());
    let mut graph2 = WebgraphBuilder::new_memory().with_full_graph().open();
    graph2.insert(Node::from("A"), Node::from("B"), "x".to_string());
    graph2.insert(Node::from("B"), Node::from("C"), "y".to_string());
    graph1.merge(graph2);
    let into_b = graph1.ingoing_edges(Node::from("B"));
    assert_eq!(into_b.len(), 2);
    assert!(into_b.iter().all(|e| e.from == Node::from("A") && e.label == "x"));
    assert_eq!(graph1.ingoing_edges(Node::from("C")).len(), 1);
    assert!(graph1.ingoing_edges(Node::from("A")).is_empty());
    let store = graph1.full_graph.as_ref().unwrap();
    assert_eq!(store.node_names(), vec!["A".to_string(), "B".to_string(), "C".to_string()]);
    assert_eq!(
        store.edge_triples(),
        vec![(0, 1, "x".to_string()), (0, 1, "x".to_string()), (1, 2, "y".to_string())]
    );
}
