use kv_web::{region_mask, select_region, soft_mask_levels, tokens_to_indices, EdgeKind, KvWeb, TokenId, WebNodeId};

fn web() -> KvWeb<f32, f32> {
    let mut w: KvWeb<f32, f32> = KvWeb::new();
    w.create_node(vec![TokenId(0), TokenId(1)], None, 1.0);
    w.create_node(vec![TokenId(2)], None, 1.0);
    w.create_node(vec![TokenId(4), TokenId(9)], None, 1.0);
    w.add_edge(WebNodeId(0), WebNodeId(1), 1.0, EdgeKind::Semantic);
    w.add_edge(WebNodeId(1), WebNodeId(2), 1.0, EdgeKind::Semantic);
    w
}

#[test]
fn token_indices_in_order() {
    assert_eq!(tokens_to_indices(&vec![TokenId(3), TokenId(1), TokenId(3)]), vec![3, 1, 3]);
}

#[test]
fn select_region_positions() {
    let mut sel = select_region(&web(), WebNodeId(0), 1);
    sel.sort();
    assert_eq!(sel, vec![0, 1, 2]);
}

#[test]
fn hard_mask_marks_region_tokens_in_range() {
    let m = region_mask(&web(), WebNodeId(0), 5, 6);
    assert_eq!(m, vec![true, true, true, false, true, false]);
}

#[test]
fn soft_mask_levels_region_and_neighbors() {
    let lv = soft_mask_levels(&web(), WebNodeId(0), 0, 10);
    // region of depth 0 is node 0 (tokens 0, 1); node 0 points at node 1 (token 2)
    assert_eq!(lv, vec![2, 2, 1, 0, 0, 0, 0, 0, 0, 0]);
    let lv1 = soft_mask_levels(&web(), WebNodeId(0), 1, 3);
    assert_eq!(lv1, vec![2, 2, 2]);
}
