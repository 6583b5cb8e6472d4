use kv_web::{bfs_region, bfs_region_parallel, EdgeKind, KvWeb, TokenId, WebNodeId};

fn toks(v: &[usize]) -> Vec<TokenId> {
    v.iter().map(|t| TokenId(*t)).collect()
}

/// 0 -> 1 -> 2 -> 3, 0 -> 4, and an edge 1 -> 9 into a node that does not exist.
fn chain() -> KvWeb<f32, f32> {
    let mut web: KvWeb<f32, f32> = KvWeb::new();
    for i in 0..5 {
        web.create_node(toks(&[10 * i, 10 * i + 1]), None, 1.0);
    }
    web.add_edge(WebNodeId(0), WebNodeId(1), 1.0, EdgeKind::Semantic);
    web.add_edge(WebNodeId(1), WebNodeId(2), 1.0, EdgeKind::Semantic);
    web.add_edge(WebNodeId(2), WebNodeId(3), 1.0, EdgeKind::Semantic);
    web.add_edge(WebNodeId(0), WebNodeId(4), 1.0, EdgeKind::Positional);
    web.add_edge(WebNodeId(1), WebNodeId(9), 1.0, EdgeKind::Positional);
    web
}

fn sorted_ids(v: Vec<WebNodeId>) -> Vec<usize> {
    let mut out: Vec<usize> = v.into_iter().map(|x| x.0).collect();
    out.sort();
    out
}

#[test]
fn neighbors_skip_missing_targets() {
    let web = chain();
    let n: Vec<usize> = web.neighbors(WebNodeId(1)).iter().map(|n| n.id.0).collect();
    assert_eq!(n, vec![2]);
    let n0: Vec<usize> = web.neighbors(WebNodeId(0)).iter().map(|n| n.id.0).collect();
    assert_eq!(n0, vec![1, 4]);
}

#[test]
fn nodes_in_region_depth_zero_is_root() {
    let web = chain();
    assert_eq!(sorted_ids(web.nodes_in_region(WebNodeId(2), 0)), vec![2]);
}

#[test]
fn nodes_in_region_follows_edges_to_missing_nodes() {
    let web = chain();
    assert_eq!(sorted_ids(web.nodes_in_region(WebNodeId(0), 2)), vec![0, 1, 2, 4, 9]);
}

#[test]
fn nodes_in_region_grows_with_depth() {
    let web = chain();
    let small = sorted_ids(web.nodes_in_region(WebNodeId(0), 1));
    let large = sorted_ids(web.nodes_in_region(WebNodeId(0), 3));
    assert_eq!(small, vec![0, 1, 4]);
    for x in &small {
        assert!(large.contains(x));
    }
    assert_eq!(large, vec![0, 1, 2, 3, 4, 9]);
}

#[test]
fn nodes_in_region_huge_depth_terminates() {
    let web = chain();
    assert_eq!(sorted_ids(web.nodes_in_region(WebNodeId(0), usize::MAX)), vec![0, 1, 2, 3, 4, 9]);
}

#[test]
fn nodes_in_region_of_missing_root() {
    let web = chain();
    assert_eq!(sorted_ids(web.nodes_in_region(WebNodeId(42), 3)), vec![42]);
}

#[test]
fn tokens_in_region_collects_tokens_once() {
    let mut web = chain();
    // node 5 shares token 0 with node 0
    let five = web.create_node(toks(&[0, 50]), None, 1.0);
    web.add_edge(WebNodeId(0), five, 1.0, EdgeKind::Semantic);
    let mut t: Vec<usize> = web.tokens_in_region(WebNodeId(0), 1).into_iter().map(|t| t.0).collect();
    t.sort();
    assert_eq!(t, vec![0, 1, 10, 11, 40, 41, 50]);
}

#[test]
fn bfs_region_order_and_existing_targets_only() {
    let web = chain();
    let r: Vec<usize> = bfs_region(&web, WebNodeId(0), 2).into_iter().map(|x| x.0).collect();
    assert_eq!(r, vec![0, 1, 4, 2]);
    let r3: Vec<usize> = bfs_region(&web, WebNodeId(0), 3).into_iter().map(|x| x.0).collect();
    assert_eq!(r3, vec![0, 1, 4, 2, 3]);
}

#[test]
fn bfs_region_within_nodes_in_region() {
    let web = chain();
    let bfs = sorted_ids(bfs_region(&web, WebNodeId(0), 3));
    let all = sorted_ids(web.nodes_in_region(WebNodeId(0), 3));
    for x in &bfs {
        assert!(all.contains(x));
    }
    assert!(!bfs.contains(&9));
}

#[test]
fn bfs_region_cycle_visits_once() {
    let mut web: KvWeb<f32, f32> = KvWeb::new();
    let a = web.create_node(toks(&[0]), None, 1.0);
    let b = web.create_node(toks(&[1]), None, 1.0);
    web.add_edge(a, b, 1.0, EdgeKind::Semantic);
    web.add_edge(b, a, 1.0, EdgeKind::Semantic);
    web.add_edge(a, b, 1.0, EdgeKind::Semantic);
    let r: Vec<usize> = bfs_region(&web, a, 10).into_iter().map(|x| x.0).collect();
    assert_eq!(r, vec![0, 1]);
}

#[test]
fn bfs_region_parallel_keeps_root_order() {
    let web = chain();
    let roots = vec![WebNodeId(2), WebNodeId(0), WebNodeId(3)];
    let res = bfs_region_parallel(&web, &roots, 1);
    assert_eq!(res.len(), 3);
    assert_eq!(res[0].0, WebNodeId(2));
    assert_eq!(res[0].1, vec![WebNodeId(2), WebNodeId(3)]);
    assert_eq!(res[1].1, vec![WebNodeId(0), WebNodeId(1), WebNodeId(4)]);
    assert_eq!(res[2].1, vec![WebNodeId(3)]);
}

#[test]
fn bfs_region_orders_each_round_by_frontier_then_edges() {
    let mut web: KvWeb<f32, f32> = KvWeb::new();
    for t in 0..5 {
        web.create_node(toks(&[t]), None, 1.0);
    }
    web.add_edge(WebNodeId(0), WebNodeId(2), 1.0, EdgeKind::Semantic);
    web.add_edge(WebNodeId(0), WebNodeId(1), 1.0, EdgeKind::Semantic);
    web.add_edge(WebNodeId(1), WebNodeId(3), 1.0, EdgeKind::Semantic);
    web.add_edge(WebNodeId(2), WebNodeId(4), 1.0, EdgeKind::Semantic);
    let r: Vec<usize> = bfs_region(&web, WebNodeId(0), 2).into_iter().map(|x| x.0).collect();
    // round one in edge order (2 before 1); round two follows the frontier [2, 1]
    assert_eq!(r, vec![0, 2, 1, 4, 3]);
    let par = bfs_region_parallel(&web, &[WebNodeId(0)], 2);
    let p: Vec<usize> = par[0].1.iter().map(|x| x.0).collect();
    assert_eq!(p, r);
}
