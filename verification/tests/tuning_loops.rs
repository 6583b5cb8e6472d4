use kv_web::{
    chunk_region, enable_compression_at_threshold, EdgeKind, optimize_kv_web_capacities, tune_gpu_state,
    GpuOptimizationConfig, GpuOptimizationState, KvWeb, KvWebOptimizationConfig,
    KvWebOptimizationState, RuntimeScheduler, RuntimeSchedulerConfig, TokenId,
    TransformerOptimizationState, WebNodeId,
};

fn kv_cfg() -> KvWebOptimizationConfig {
    KvWebOptimizationConfig {
        min_node_capacity: 2,
        max_node_capacity: 6,
        min_edge_capacity: 1,
        max_edge_capacity: 100,
        min_compression_threshold: 1,
        max_compression_threshold: 10,
    }
}

#[test]
fn kv_state_defaults() {
    let s = KvWebOptimizationState::default();
    assert_eq!((s.node_capacity, s.edge_capacity, s.compression_threshold), (1024, 4096, 256));
    let t = TransformerOptimizationState::default();
    assert_eq!((t.depth, t.gpu_threshold), (3, 512));
    let g = GpuOptimizationState::default();
    assert_eq!((g.region_batch, g.gpu_threshold, g.block_size), (256, 512, 64));
}

#[test]
fn capacities_double_capped_and_halve_floored() {
    let mut web: KvWeb<f32, f32> = KvWeb::new();
    for i in 0..5 {
        web.create_node(vec![TokenId(i)], None, 1.0);
    }
    let mut state = KvWebOptimizationState { node_capacity: 4, edge_capacity: 8, compression_threshold: 7 };
    optimize_kv_web_capacities(&web, &mut state, &kv_cfg());
    // 5 nodes > 4 -> min(8, 6) == 6; 0 edges < 8 / 2 -> max(4, 1) == 4
    assert_eq!(state.node_capacity, 6);
    assert_eq!(state.edge_capacity, 4);
    assert_eq!(state.compression_threshold, 7);
    optimize_kv_web_capacities(&web, &mut state, &kv_cfg());
    assert_eq!(state.node_capacity, 6);
    assert_eq!(state.edge_capacity, 2);
}

#[test]
fn compressor_enabled_at_threshold() {
    let mut web: KvWeb<f32, f32> = KvWeb::new();
    web.compressor = None;
    web.create_node(vec![TokenId(0)], None, 1.0);
    enable_compression_at_threshold(&mut web, 2);
    assert!(web.compressor.is_none());
    enable_compression_at_threshold(&mut web, 1);
    assert!(web.compressor.is_some());
}

#[test]
fn scheduler_tick_counts_and_prunes() {
    let mut web: KvWeb<f32, f32> = KvWeb::new();
    web.create_node(vec![TokenId(0)], None, 1.0);
    web.create_node(vec![TokenId(1)], None, -1.0);
    web.add_edge(WebNodeId(1), WebNodeId(0), 1.0, EdgeKind::Semantic);
    web.add_edge(WebNodeId(0), WebNodeId(0), 1.0, EdgeKind::Semantic);
    let mut sched = RuntimeScheduler::new(RuntimeSchedulerConfig { default_root: WebNodeId(0), default_depth: 3 });
    assert_eq!(sched.state.ticks, 0);
    sched.tick(&mut web, &vec![WebNodeId(0)]);
    assert_eq!(sched.state.ticks, 1);
    assert_eq!(web.nodes.len(), 1);
    assert!(!web.node_index_by_token.contains_key(&1));
    // the edge out of the pruned node goes with it
    let e: Vec<(usize, usize)> = web.edges.iter().map(|e| (e.from.0, e.to.0)).collect();
    assert_eq!(e, vec![(0, 0)]);
    assert_eq!(sched.cfg.default_depth, 3);
}

fn gpu_cfg() -> GpuOptimizationConfig {
    GpuOptimizationConfig {
        min_region_batch: 64,
        max_region_batch: 8192,
        min_gpu_threshold: 256,
        max_gpu_threshold: 32768,
        min_block_size: 32,
        max_block_size: 1024,
    }
}

#[test]
fn gpu_state_large_region() {
    let mut s = GpuOptimizationState::default();
    tune_gpu_state(5000, 20000, &mut s, &gpu_cfg());
    assert_eq!(s.gpu_threshold, 256);
    assert_eq!(s.region_batch, 512);
    assert_eq!(s.block_size, 128);
}

#[test]
fn gpu_state_small_region() {
    let mut s = GpuOptimizationState::default();
    tune_gpu_state(100, 100, &mut s, &gpu_cfg());
    assert_eq!(s.gpu_threshold, 512);
    assert_eq!(s.region_batch, 128);
    assert_eq!(s.block_size, 32);
    tune_gpu_state(1000, 100, &mut s, &gpu_cfg());
    assert_eq!(s.region_batch, 256);
    assert_eq!(s.block_size, 32);
}

#[test]
fn chunks_cover_region() {
    let region: Vec<u32> = (0..10).collect();
    let chunks = chunk_region(&region, 4);
    assert_eq!(chunks, vec![vec![0, 1, 2, 3], vec![4, 5, 6, 7], vec![8, 9]]);
    assert!(chunk_region(&Vec::new(), 4).is_empty());
    assert_eq!(chunk_region(&region, 32), vec![region.clone()]);
}
