use kv_web::{kv_subset_indices, region_mask, soft_mask_levels, EdgeKind, KvWeb, TokenId};

#[test]
fn basic_web_region_masks_and_subset() {
    let mut web: KvWeb<f32, f32> = KvWeb::new();
    let a = web.create_node(vec![TokenId(0), TokenId(1)], Some("intro".to_string()), 0.9);
    let b = web.create_node(vec![TokenId(2), TokenId(3)], Some("topic".to_string()), 0.7);
    let c = web.create_node(vec![TokenId(4)], Some("detail".to_string()), 0.5);
    web.add_edge(a, b, 1.0, EdgeKind::Semantic);
    web.add_edge(b, c, 0.8, EdgeKind::Semantic);

    let mut tokens: Vec<usize> = web.tokens_in_region(a, 2).iter().map(|t| t.0).collect();
    tokens.sort();
    assert_eq!(tokens, vec![0, 1, 2, 3, 4]);

    assert_eq!(region_mask(&web, a, 2, 5), vec![true; 5]);
    assert_eq!(soft_mask_levels(&web, a, 2, 5), vec![2; 5]);

    let mut subset = kv_subset_indices(&web, a, 2, 5);
    subset.sort();
    assert_eq!(subset, vec![0, 1, 2, 3, 4]);

    let score: f32 = web.nodes_in_region(a, 2).iter().map(|id| web.nodes[&id.0].data).sum();
    assert!((score - 2.1).abs() < 1e-6);
}

#[test]
fn basic_web_depth_one_soft_mask() {
    let mut web: KvWeb<f32, f32> = KvWeb::new();
    let a = web.create_node(vec![TokenId(0), TokenId(1)], None, 0.9);
    let b = web.create_node(vec![TokenId(2), TokenId(3)], None, 0.7);
    let c = web.create_node(vec![TokenId(4)], None, 0.5);
    web.add_edge(a, b, 1.0, EdgeKind::Semantic);
    web.add_edge(b, c, 0.8, EdgeKind::Semantic);
    // depth 0: only the root's tokens are in the region; its neighbour's are at half weight
    assert_eq!(soft_mask_levels(&web, a, 0, 6), vec![2, 2, 1, 1, 0, 0]);
    assert_eq!(region_mask(&web, a, 1, 6), vec![true, true, true, true, false, false]);
}
