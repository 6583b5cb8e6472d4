use kv_web::{EdgeKind, KvWeb, TokenId, WebNodeId};

fn toks(v: &[usize]) -> Vec<TokenId> {
    v.iter().map(|t| TokenId(*t)).collect()
}

fn sample() -> KvWeb<f32, f32> {
    let mut web: KvWeb<f32, f32> = KvWeb::new();
    web.create_node(toks(&[0, 1]), Some("a".to_string()), 1.0);
    web.create_node(toks(&[2]), None, 0.0);
    web.create_node(toks(&[3, 4]), Some("c".to_string()), 2.0);
    web.add_edge(WebNodeId(0), WebNodeId(1), 1.0, EdgeKind::Semantic);
    web.add_edge(WebNodeId(1), WebNodeId(2), 1.0, EdgeKind::Semantic);
    web.add_edge(WebNodeId(2), WebNodeId(0), 1.0, EdgeKind::Semantic);
    web.add_edge(WebNodeId(0), WebNodeId(7), 1.0, EdgeKind::Semantic);
    web
}

#[test]
fn retain_nodes_drops_edges_touching_missing_nodes_and_rebuilds_index() {
    let mut web = sample();
    web.retain_nodes(&vec![WebNodeId(0), WebNodeId(2), WebNodeId(99)]);
    let mut keys: Vec<usize> = web.nodes.keys().cloned().collect();
    keys.sort();
    assert_eq!(keys, vec![0, 2]);
    // 0->1 enters and 1->2 leaves the dropped node 1; 0->7 enters a node that never existed
    let e: Vec<(usize, usize)> = web.edges.iter().map(|e| (e.from.0, e.to.0)).collect();
    assert_eq!(e, vec![(2, 0)]);
    for edge in web.edges.iter() {
        assert!(web.nodes.contains_key(&edge.from.0) && web.nodes.contains_key(&edge.to.0));
    }
    let mut idx: Vec<(usize, usize)> = web.node_index_by_token.iter().map(|(t, n)| (*t, *n)).collect();
    idx.sort();
    assert_eq!(idx, vec![(0, 0), (1, 0), (3, 2), (4, 2)]);
    assert_eq!(web.next_node_id, 3);
}

#[test]
fn remove_nodes_drops_edges_touching_removed() {
    let mut web = sample();
    web.remove_nodes(&vec![WebNodeId(1)]);
    let mut keys: Vec<usize> = web.nodes.keys().cloned().collect();
    keys.sort();
    assert_eq!(keys, vec![0, 2]);
    // both edges at node 1 go; the edge to the never-existing node 7 is not touched here
    let e: Vec<(usize, usize)> = web.edges.iter().map(|e| (e.from.0, e.to.0)).collect();
    assert_eq!(e, vec![(2, 0), (0, 7)]);
    assert!(!web.node_index_by_token.contains_key(&2));
}

#[test]
fn rebuilt_index_points_at_owning_nodes() {
    let mut web: KvWeb<f32, f32> = KvWeb::new();
    web.create_node(toks(&[5, 6]), None, 1.0);
    web.create_node(toks(&[6, 7]), None, 1.0);
    web.retain_nodes(&vec![WebNodeId(0), WebNodeId(1)]);
    for (t, n) in web.node_index_by_token.iter() {
        assert!(web.nodes[n].tokens.contains(&TokenId(*t)));
    }
    assert_eq!(web.node_index_by_token.len(), 3);
}

#[test]
fn cleanup_orphan_tokens_removes_dangling_entries() {
    let mut web = sample();
    web.nodes.remove(&2);
    web.cleanup_orphan_tokens();
    let mut idx: Vec<(usize, usize)> = web.node_index_by_token.iter().map(|(t, n)| (*t, *n)).collect();
    idx.sort();
    assert_eq!(idx, vec![(0, 0), (1, 0), (2, 1)]);
}

#[test]
fn merge_nodes_concatenates_and_reindexes() {
    let mut web = sample();
    let m = web.merge_nodes(WebNodeId(1), WebNodeId(2), 2.0);
    // three nodes were created: the merged node gets the next id, 3
    assert_eq!(m, WebNodeId(3));
    assert_eq!(web.next_node_id, 4);
    let node = &web.nodes[&3];
    assert_eq!(node.tokens, toks(&[2, 3, 4]));
    // node 1 has no label, so node 2's label is taken
    assert_eq!(node.label.as_deref(), Some("c"));
    assert_eq!(node.data, 2.0);
    assert!(!web.nodes.contains_key(&1));
    assert!(!web.nodes.contains_key(&2));
    assert_eq!(web.node_index_by_token[&3], 3);
    assert_eq!(web.node_index_by_token[&2], 3);
    let e: Vec<(usize, usize)> = web.edges.iter().map(|e| (e.from.0, e.to.0)).collect();
    assert_eq!(e, vec![(0, 1), (0, 7)]);
}

#[test]
fn merge_nodes_takes_fresh_ids() {
    let mut web: KvWeb<f32, f32> = KvWeb::new();
    web.create_node(toks(&[0]), Some("x".to_string()), 1.0);
    web.create_node(toks(&[1]), None, 1.0);
    web.create_node(toks(&[2]), Some("z".to_string()), 1.0);
    web.nodes.remove(&1);
    // two nodes are left, but the merged node takes the next id, 3
    let m = web.merge_nodes(WebNodeId(0), WebNodeId(2), 0.0);
    assert_eq!(m, WebNodeId(3));
    assert_eq!(web.next_node_id, 4);
    let m2 = web.merge_nodes(WebNodeId(3), WebNodeId(3), 5.0);
    assert_eq!(m2, WebNodeId(4));
    let node = &web.nodes[&4];
    assert_eq!(node.tokens, toks(&[0, 2, 0, 2]));
    assert_eq!(node.label.as_deref(), Some("x"));
    assert_eq!(web.nodes.len(), 1);
    assert_eq!(web.next_node_id, 5);
}

#[test]
fn node_created_after_merge_keeps_merged_node() {
    let mut web: KvWeb<f32, f32> = KvWeb::new();
    let a = web.create_node(toks(&[0]), Some("a".to_string()), 1.0);
    let b = web.create_node(toks(&[1]), Some("b".to_string()), 2.0);
    let m = web.merge_nodes(a, b, 3.0);
    let n = web.create_node(toks(&[2]), Some("n".to_string()), 0.5);
    assert_ne!(n, m);
    assert_eq!(web.nodes.len(), 2);
    assert_eq!(web.nodes[&m.0].tokens, toks(&[0, 1]));
    assert_eq!(web.nodes[&m.0].data, 3.0);
    assert_eq!(web.node_index_by_token[&0], m.0);
    assert_eq!(web.node_index_by_token[&2], n.0);
}

#[test]
fn merge_of_missing_nodes_is_empty() {
    let mut web: KvWeb<f32, f32> = KvWeb::new();
    let m = web.merge_nodes(WebNodeId(4), WebNodeId(5), 0.0);
    assert_eq!(m, WebNodeId(0));
    assert!(web.nodes[&0].tokens.is_empty());
    assert!(web.nodes[&0].label.is_none());
}

#[test]
fn link_recent_nodes_chains_pairs() {
    let mut web = sample();
    let before = web.edges.len();
    web.link_recent_nodes(&[WebNodeId(2), WebNodeId(0), WebNodeId(1)], 0.05f32);
    assert_eq!(web.edges.len(), before + 2);
    assert_eq!((web.edges[before].from, web.edges[before].to), (WebNodeId(2), WebNodeId(0)));
    assert_eq!((web.edges[before + 1].from, web.edges[before + 1].to), (WebNodeId(0), WebNodeId(1)));
    assert_eq!(web.edges[before + 1].kind, EdgeKind::Positional);
    assert_eq!(web.edges[before + 1].weight, 0.05);
    web.link_recent_nodes(&[WebNodeId(1)], 0.05f32);
    assert_eq!(web.edges.len(), before + 2);
}
