use kv_web::tuning::{launch_shape, stream_count_for, stream_for_chunk};
use kv_web::{kv_subset_indices, EdgeKind, KvWeb, TokenId, WebNodeId};

#[test]
fn stream_count_capped_by_device() {
    assert_eq!(stream_count_for(3, 100), 3);
    assert_eq!(stream_count_for(30, 100), 16);
    assert_eq!(stream_count_for(30, 20), 8);
    assert_eq!(stream_count_for(0, 20), 0);
}

#[test]
fn chunks_routed_to_streams() {
    // four streams: small chunks use streams 0..2, large ones are offset by two
    assert_eq!(stream_for_chunk(0, 10, 4, false), 0);
    assert_eq!(stream_for_chunk(3, 10, 4, false), 1);
    assert_eq!(stream_for_chunk(1, 2000, 4, false), 3);
    assert_eq!(stream_for_chunk(2, 2000, 4, false), 0);
    // a large chunk under high load moves on to the next stream
    assert_eq!(stream_for_chunk(1, 5000, 4, true), 0);
    assert_eq!(stream_for_chunk(1, 5000, 4, false), 3);
    // one stream takes everything
    assert_eq!(stream_for_chunk(7, 10, 1, true), 0);
}

#[test]
fn launch_shape_covers_chunk() {
    assert_eq!(launch_shape(100, 64, 32), (64, 2));
    assert_eq!(launch_shape(100, 16, 8), (32, 4));
    assert_eq!(launch_shape(0, 64, 32), (64, 1));
    assert_eq!(launch_shape(128, 64, 32), (64, 2));
    // the largest chunk whose rounding-up stays in range
    assert_eq!(launch_shape(u32::MAX - 63, 64, 32), (64, u32::MAX / 64));
}

#[test]
fn kv_subset_keeps_positions_inside_cache() {
    let mut web: KvWeb<f32, f32> = KvWeb::new();
    let a = web.create_node(vec![TokenId(1), TokenId(7)], None, 1.0);
    let b = web.create_node(vec![TokenId(3), TokenId(12)], None, 1.0);
    web.add_edge(a, b, 1.0, EdgeKind::Semantic);
    let mut got = kv_subset_indices(&web, a, 1, 8);
    got.sort();
    assert_eq!(got, vec![1, 3, 7]);
    let mut only_root = kv_subset_indices(&web, a, 0, 100);
    only_root.sort();
    assert_eq!(only_root, vec![1, 7]);
    assert!(kv_subset_indices(&web, WebNodeId(9), 2, 100).is_empty());
}
