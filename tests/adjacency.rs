use cuely::adjacency::{Adjacency, StoredEdge, BLOCK_SIZE};
use cuely::graph::GraphStore;

fn edge(other: u64, label: &str) -> StoredEdge {
    StoredEdge { other, label: label.to_string() }
}

#[test]
fn block_store_keeps_insertion_order_per_source() {
    let mut adj = Adjacency::new();
    adj.insert(3, edge(1, "a"));
    adj.insert(BLOCK_SIZE + 5, edge(2, "b"));
    adj.insert(3, edge(4, "c"));
    assert_eq!(adj.blocks.len(), 2);
    assert_eq!(adj.edge_count(3), 2);
    assert_eq!(adj.peer_at(3, 0), 1);
    assert_eq!(adj.peer_at(3, 1), 4);
    assert_eq!(adj.edge_at(3, 1).label, "c");
    assert_eq!(adj.edge_count(BLOCK_SIZE + 5), 1);
    assert_eq!(adj.edge_count(4), 0);
    assert_eq!(adj.edge_count(10 * BLOCK_SIZE), 0);
}

#[test]
fn append_concatenates_per_source() {
    let mut a = Adjacency::new();
    a.insert(0, edge(1, "x"));
    let mut b = Adjacency::new();
    b.insert(0, edge(2, "y"));
    b.insert(BLOCK_SIZE * 2, edge(0, "z"));
    a.append(b);
    assert_eq!(a.edge_count(0), 2);
    assert_eq!(a.peer_at(0, 0), 1);
    assert_eq!(a.peer_at(0, 1), 2);
    assert_eq!(a.edge_count(BLOCK_SIZE * 2), 1);
    assert_eq!(a.edge_at(BLOCK_SIZE * 2, 0).label, "z");
}

#[test]
fn graph_store_ids_and_edges() {
    let mut g = GraphStore::new();
    g.insert("a".to_string(), "b".to_string(), "l1".to_string());
    g.insert("b".to_string(), "a".to_string(), "l2".to_string());
    g.insert("a".to_string(), "c".to_string(), "l3".to_string());
    assert_eq!(g.node_count(), 3);
    assert_eq!(g.node2id(&"a".to_string()), Some(0));
    assert_eq!(g.node2id(&"c".to_string()), Some(2));
    assert_eq!(g.node2id(&"d".to_string()), None);
    assert_eq!(g.id2node(1), Some("b".to_string()));
    assert_eq!(g.id2node(3), None);
    let out = g.outgoing_edges(0);
    assert_eq!(out.len(), 2);
    assert_eq!((out[0].from, out[0].to, out[0].label.as_str()), (0, 1, "l1"));
    assert_eq!((out[1].from, out[1].to, out[1].label.as_str()), (0, 2, "l3"));
    let inc = g.ingoing_edges(0);
    assert_eq!(inc.len(), 1);
    assert_eq!((inc[0].from, inc[0].to, inc[0].label.as_str()), (1, 0, "l2"));
}

#[test]
fn graph_store_append_maps_ids() {
    let mut g = GraphStore::new();
    g.insert("a".to_string(), "b".to_string(), String::new());
    let mut h = GraphStore::new();
    h.insert("c".to_string(), "a".to_string(), "k".to_string());
    g.append(h);
    assert_eq!(g.node_count(), 3);
    let c = g.node2id(&"c".to_string()).unwrap();
    let out = g.outgoing_edges(c);
    assert_eq!(out.len(), 1);
    assert_eq!(out[0].to, 0);
    assert_eq!(out[0].label, "k");
    let d = g.shortest_distances(c, true);
    assert_eq!(d, vec![Some(1), Some(2), Some(0)]);
    let back = g.shortest_distances(1, false);
    assert_eq!(back, vec![Some(1), Some(0), Some(2)]);
}

#[test]
fn graph_store_nodes_in_assignment_order() {
    let mut g = GraphStore::new();
    assert!(g.nodes().is_empty());
    g.insert("x".to_string(), "y".to_string(), String::new());
    g.insert("z".to_string(), "x".to_string(), String::new());
    assert_eq!(g.nodes(), vec![0, 1, 2]);
    assert_eq!(g.id2node(2), Some("z".to_string()));
}
