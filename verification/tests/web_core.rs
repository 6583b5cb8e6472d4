use kv_web::{EdgeKind, KvWeb, KvWebCompressor, TokenId, WebNodeId};

fn toks(v: &[usize]) -> Vec<TokenId> {
    v.iter().map(|t| TokenId(*t)).collect()
}

#[test]
fn new_web_is_empty_with_compressor() {
    let web: KvWeb<f32, f32> = KvWeb::new();
    assert!(web.nodes.is_empty());
    assert!(web.edges.is_empty());
    assert!(web.node_index_by_token.is_empty());
    assert_eq!(web.next_node_id, 0);
    assert!(web.compressor.is_some());
}

#[test]
fn create_node_assigns_consecutive_ids_and_indexes_tokens() {
    let mut web: KvWeb<f32, f32> = KvWeb::new();
    let a = web.create_node(toks(&[0, 1]), Some("A".to_string()), 1.0);
    let b = web.create_node(toks(&[1, 2]), None, 0.5);
    assert_eq!(a, WebNodeId(0));
    assert_eq!(b, WebNodeId(1));
    assert_eq!(web.next_node_id, 2);
    assert_eq!(web.nodes.len(), 2);
    assert_eq!(web.nodes[&0].tokens, toks(&[0, 1]));
    assert_eq!(web.nodes[&0].label.as_deref(), Some("A"));
    assert_eq!(web.nodes[&1].data, 0.5);
    assert_eq!(web.nodes[&1].branch_id, None);
    // token 1 was claimed last by b
    assert_eq!(web.node_index_by_token[&0], 0);
    assert_eq!(web.node_index_by_token[&1], 1);
    assert_eq!(web.node_index_by_token[&2], 1);
}

#[test]
fn node_for_token_reads_back_created_node() {
    let mut web: KvWeb<f32, f32> = KvWeb::new();
    let a = web.create_node(toks(&[7]), Some("seven".to_string()), 2.0);
    let n = web.node_for_token(TokenId(7)).expect("indexed");
    assert_eq!(n.id, a);
    assert!(web.node_for_token(TokenId(8)).is_none());
}

#[test]
fn add_edge_appends_in_order() {
    let mut web: KvWeb<f32, f32> = KvWeb::new();
    let a = web.create_node(toks(&[0]), None, 1.0);
    let b = web.create_node(toks(&[1]), None, 1.0);
    web.add_edge(a, b, 1.0, EdgeKind::Semantic);
    web.add_edge(b, a, 0.25, EdgeKind::Custom(3));
    assert_eq!(web.edges.len(), 2);
    assert_eq!(web.edges[0].from, a);
    assert_eq!(web.edges[0].to, b);
    assert_eq!(web.edges[1].kind, EdgeKind::Custom(3));
    assert_eq!(web.edges[1].weight, 0.25);
}

#[test]
fn compressor_new_is_unit() {
    let c = KvWebCompressor::new();
    let _copy = c.clone();
}

#[test]
fn default_web_matches_new() {
    let w: KvWeb<f32, f32> = KvWeb::default();
    assert!(w.nodes.is_empty());
    assert!(w.edges.is_empty());
    assert!(w.node_index_by_token.is_empty());
    assert_eq!(w.next_node_id, 0);
    assert!(w.compressor.is_some());
}
