use kv_web::cluster::{group_by_label, plan_clusters};
use kv_web::export::{
    export_binary_packet, export_gpu_buffer, export_pruning_packet, export_semantic_zoning_compressed,
};
use kv_web::heatmap::segment_layer;
use kv_web::semantic::route_step;
use kv_web::tuning::{align_batch_to_warp, region_gaps, tune_bfs_depth};
use kv_web::{
    DoorPhase, EdgeKind, KvWeb, KvWebClusters, RouteState, SemanticPriority,
    SemanticRoundaboutConfig, TokenId, WebNodeId,
};

fn ids(v: &[usize]) -> Vec<WebNodeId> {
    v.iter().map(|&i| WebNodeId(i)).collect()
}

fn labelled_web() -> KvWeb<f32, f32> {
    let mut web: KvWeb<f32, f32> = KvWeb::new();
    web.create_node(vec![TokenId(0)], Some("a".to_string()), 0.9);
    web.create_node(vec![TokenId(1)], Some("b".to_string()), 0.8);
    web.create_node(vec![TokenId(2)], Some("a".to_string()), 0.7);
    web.create_node(vec![TokenId(3)], None, 0.6);
    web.create_node(vec![TokenId(4)], Some("a".to_string()), 0.5);
    web
}

#[test]
fn segment_layer_splits_at_breaks() {
    let (map, ranges) = segment_layer(&vec![false, false, true, false, true]);
    assert_eq!(map, vec![0, 0, 1, 1, 2]);
    assert_eq!(ranges, vec![(0, 1), (2, 3), (4, 4)]);
}

#[test]
fn segment_layer_ignores_first_break_and_empty_layer() {
    let (map, ranges) = segment_layer(&vec![true, false]);
    assert_eq!(map, vec![0, 0]);
    assert_eq!(ranges, vec![(0, 1)]);
    let (map, ranges) = segment_layer(&vec![]);
    assert!(map.is_empty());
    assert!(ranges.is_empty());
}

#[test]
fn group_by_label_in_first_appearance_order() {
    let web = labelled_web();
    let (keys, members) = group_by_label(&web, &ids(&[0, 1, 2, 3, 4, 9]));
    assert_eq!(keys, vec!["a".to_string(), "b".to_string(), "unlabeled_3".to_string()]);
    assert_eq!(members, vec![ids(&[0, 2, 4]), ids(&[1]), ids(&[3])]);
}

#[test]
fn group_by_label_only_eligible_nodes() {
    let web = labelled_web();
    let (keys, members) = group_by_label(&web, &ids(&[4, 3]));
    assert_eq!(keys, vec!["a".to_string(), "unlabeled_3".to_string()]);
    assert_eq!(members, vec![ids(&[4]), ids(&[3])]);
}

#[test]
fn plan_clusters_cuts_groups_and_numbers_them() {
    let keys = vec!["a".to_string(), "b".to_string()];
    let members = vec![ids(&[0, 2, 4, 6, 8]), ids(&[1])];
    let clusters = plan_clusters(&keys, &members, 2);
    let got: Vec<(usize, Option<String>, Vec<WebNodeId>)> =
        clusters.into_iter().map(|c| (c.id, c.label, c.nodes)).collect();
    assert_eq!(
        got,
        vec![
            (0, Some("a".to_string()), ids(&[0, 2])),
            (1, Some("a".to_string()), ids(&[4, 6])),
            (2, Some("a".to_string()), ids(&[8])),
            (3, Some("b".to_string()), ids(&[1])),
        ]
    );
}

#[test]
fn from_web_zero_cap_gives_singletons() {
    let web = labelled_web();
    let c = KvWebClusters::from_web(&web, &ids(&[0, 2]), 0);
    assert_eq!(c.clusters.len(), 2);
    assert_eq!(c.clusters[0].nodes, ids(&[0]));
    assert_eq!(c.clusters[1].nodes, ids(&[2]));
    assert_eq!(c.clusters[1].id, 1);
    assert!(c.compressor.is_some());
}

#[test]
fn from_web_groups_then_cuts() {
    let web = labelled_web();
    let c = KvWebClusters::from_web(&web, &ids(&[0, 1, 2, 3, 4]), 2);
    let got: Vec<(usize, Option<String>, Vec<WebNodeId>)> =
        c.clusters.into_iter().map(|c| (c.id, c.label, c.nodes)).collect();
    assert_eq!(
        got,
        vec![
            (0, Some("a".to_string()), ids(&[0, 2])),
            (1, Some("a".to_string()), ids(&[4])),
            (2, Some("b".to_string()), ids(&[1])),
            (3, Some("unlabeled_3".to_string()), ids(&[3])),
        ]
    );
}

#[test]
fn route_step_exits_in_hinted_zone() {
    let cfg = SemanticRoundaboutConfig::default();
    let mut st = RouteState { priority: SemanticPriority::Low, hops: 0, last_exit_zone: Some(5) };
    let choice = route_step(&mut st, 10, &cfg, &vec![2, 5, 5]);
    assert_eq!(choice, Some(1));
    assert_eq!(st.hops, 1);
    assert_eq!(st.priority, SemanticPriority::Low);
    assert_eq!(st.last_exit_zone, Some(5));
}

#[test]
fn route_step_escalates_and_circulates() {
    let cfg = SemanticRoundaboutConfig::default();
    let mut st = RouteState { priority: SemanticPriority::Low, hops: 7, last_exit_zone: None };
    let choice = route_step(&mut st, 0, &cfg, &vec![]);
    assert_eq!(choice, None);
    assert_eq!(st.hops, 8);
    assert_eq!(st.priority, SemanticPriority::Standard);
    assert_eq!(st.last_exit_zone, None);
    let mut old = RouteState { priority: SemanticPriority::Standard, hops: 0, last_exit_zone: Some(1) };
    let choice = route_step(&mut old, 250, &cfg, &vec![3, 4]);
    assert_eq!(choice, Some(0));
    assert_eq!(old.priority, SemanticPriority::High);
    assert_eq!(old.last_exit_zone, Some(3));
}

#[test]
fn door_phase_cycles_through_four() {
    let mut p = DoorPhase::new();
    let mut seen = Vec::new();
    for _ in 0..5 {
        p.advance();
        seen.push(p.door_phase);
    }
    assert_eq!(seen, vec![1, 2, 3, 0, 1]);
    assert_eq!(p.door_cycle, 5);
    let mut w = DoorPhase { door_phase: 3, door_cycle: u64::MAX };
    w.advance();
    assert_eq!((w.door_phase, w.door_cycle), (0, 0));
}

#[test]
fn out_degree_counts_leaving_edges() {
    let mut web: KvWeb<f32, f32> = KvWeb::new();
    web.add_edge(WebNodeId(0), WebNodeId(1), 1.0, EdgeKind::Semantic);
    web.add_edge(WebNodeId(0), WebNodeId(2), 1.0, EdgeKind::Positional);
    web.add_edge(WebNodeId(1), WebNodeId(0), 1.0, EdgeKind::Semantic);
    assert_eq!(web.out_degree(WebNodeId(0)), 2);
    assert_eq!(web.out_degree(WebNodeId(1)), 1);
    assert_eq!(web.out_degree(WebNodeId(7)), 0);
}

#[test]
fn bfs_depth_tuning_steps() {
    let mut d = 3;
    tune_bfs_depth(4, &mut d, 10, 50, 1, 8);
    assert_eq!(d, 4);
    tune_bfs_depth(60, &mut d, 10, 50, 1, 8);
    assert_eq!(d, 3);
    tune_bfs_depth(20, &mut d, 10, 50, 1, 8);
    assert_eq!(d, 3);
    let mut top = 8;
    tune_bfs_depth(1, &mut top, 10, 50, 1, 8);
    assert_eq!(top, 8);
}

#[test]
fn gaps_between_region_values() {
    assert_eq!(region_gaps(&vec![3, 5, 4, 10]), vec![2, 0, 6]);
    assert!(region_gaps(&vec![]).is_empty());
    assert!(region_gaps(&vec![7]).is_empty());
}

#[test]
fn batch_aligned_to_warp() {
    assert_eq!(align_batch_to_warp(100, 32), 96);
    assert_eq!(align_batch_to_warp(10, 32), 32);
    assert_eq!(align_batch_to_warp(100, 8), 96);
    assert_eq!(align_batch_to_warp(200, 64), 192);
}

#[test]
fn exports_write_the_bytes() {
    let mut sink: Vec<u8> = Vec::new();
    export_binary_packet(&mut sink, &[1, 2]).unwrap();
    export_semantic_zoning_compressed(&mut sink, &[3]).unwrap();
    export_pruning_packet(&mut sink, &[4]).unwrap();
    export_gpu_buffer(&mut sink, &[5, 6]).unwrap();
    assert_eq!(sink, vec![1, 2, 3, 4, 5, 6]);
}

#[test]
fn semantic_edges_counted() {
    let mut web: KvWeb<f32, f32> = KvWeb::new();
    web.add_edge(WebNodeId(0), WebNodeId(1), 1.0, EdgeKind::Semantic);
    web.add_edge(WebNodeId(1), WebNodeId(0), 1.0, EdgeKind::Semantic);
    web.add_edge(WebNodeId(0), WebNodeId(2), 1.0, EdgeKind::Positional);
    web.add_edge(WebNodeId(2), WebNodeId(0), 1.0, EdgeKind::Custom(3));
    assert_eq!(web.semantic_edge_count(), 2);
    let empty: KvWeb<f32, f32> = KvWeb::new();
    assert_eq!(empty.semantic_edge_count(), 0);
}

#[test]
fn clusters_concatenate_to_groups() {
    let web = labelled_web();
    let eligible = ids(&[4, 3, 2, 1, 0]);
    let (keys, members) = group_by_label(&web, &eligible);
    let clusters = plan_clusters(&keys, &members, 2);
    let from_clusters: Vec<WebNodeId> = clusters.iter().flat_map(|c| c.nodes.iter().cloned()).collect();
    let from_groups: Vec<WebNodeId> = members.iter().flat_map(|m| m.iter().cloned()).collect();
    assert_eq!(from_clusters, from_groups);
    assert!(clusters.iter().all(|c| !c.nodes.is_empty() && c.nodes.len() <= 2));
}

#[test]
fn unlabeled_names_use_decimal_ids() {
    let mut web: KvWeb<f32, f32> = KvWeb::new();
    for t in 0..11 {
        web.create_node(vec![TokenId(t)], None, 1.0);
    }
    let (keys, _) = group_by_label(&web, &ids(&[10, 0]));
    assert_eq!(keys, vec!["unlabeled_10".to_string(), "unlabeled_0".to_string()]);
}
