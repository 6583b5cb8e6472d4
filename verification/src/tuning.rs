//! Integer parts of the tuning loops and the runtime scheduler.

use vstd::prelude::*;

use crate::region::id_numbers;
use crate::types::{KvWebCompressor, WebNodeId};
use crate::web::KvWeb;

verus! {

/// Bounds for the capacity and compression-threshold tuning of a web.
#[derive(Debug)]
pub struct KvWebOptimizationConfig {
    pub min_node_capacity: usize,
    pub max_node_capacity: usize,
    pub min_edge_capacity: usize,
    pub max_edge_capacity: usize,
    pub min_compression_threshold: usize,
    pub max_compression_threshold: usize,
}

/// Tuned capacities and compression threshold of a web.
#[derive(Debug)]
pub struct KvWebOptimizationState {
    pub node_capacity: usize,
    pub edge_capacity: usize,
    pub compression_threshold: usize,
}

impl Default for KvWebOptimizationState {
    fn default() -> (s: Self)
        ensures
            s.node_capacity == 1024,
            s.edge_capacity == 4096,
            s.compression_threshold == 256,
    {
        KvWebOptimizationState { node_capacity: 1024, edge_capacity: 4096, compression_threshold: 256 }
    }
}

/// One capacity step: doubled (up to `max`) when `count` exceeds the
/// capacity, halved (down to `min`) when `count` is below half of it.
pub open spec fn tuned_capacity(count: int, cap: int, min: int, max: int) -> int {
    if count > cap {
        if cap * 2 < max {
            cap * 2
        } else {
            max
        }
    } else if count < cap / 2 {
        if cap / 2 > min {
            cap / 2
        } else {
            min
        }
    } else {
        cap
    }
}

/// A capacity step is bounded by its cause: when the count exceeds the
/// capacity the new capacity is `min(2 * cap, max)` (never more than twice
/// the old one), when the count is below half of it the new capacity is
/// `max(cap / 2, min)` (never below half), and otherwise it is unchanged.
pub proof fn lemma_tuned_capacity_steps(count: int, cap: int, min: int, max: int)
    ensures
        count > cap ==> {
            let r = tuned_capacity(count, cap, min, max);
            &&& r <= 2 * cap
            &&& r <= max
            &&& (r == 2 * cap || r == max)
        },
        count <= cap && count < cap / 2 ==> {
            let r = tuned_capacity(count, cap, min, max);
            &&& r >= cap / 2
            &&& r >= min
            &&& (r == cap / 2 || r == min)
        },
        count <= cap && count >= cap / 2 ==> tuned_capacity(count, cap, min, max) == cap,
{
}

fn tune_capacity(count: usize, cap: usize, min: usize, max: usize) -> (res: usize)
    requires
        count > cap ==> cap * 2 <= usize::MAX,
    ensures
        res == tuned_capacity(count as int, cap as int, min as int, max as int),
{
    if count > cap {
        let doubled = cap * 2;
        if doubled < max {
            doubled
        } else {
            max
        }
    } else if count < cap / 2 {
        let halved = cap / 2;
        if halved > min {
            halved
        } else {
            min
        }
    } else {
        cap
    }
}

/// Node and edge capacity tuning of a web (the compression threshold is
/// left as it is).
pub fn optimize_kv_web_capacities<N, W>(
    web: &KvWeb<N, W>,
    state: &mut KvWebOptimizationState,
    cfg: &KvWebOptimizationConfig,
)
    requires
        web.nodes@.len() > old(state).node_capacity ==> old(state).node_capacity * 2 <= usize::MAX,
        web.edges@.len() > old(state).edge_capacity ==> old(state).edge_capacity * 2 <= usize::MAX,
    ensures
        final(state).node_capacity == tuned_capacity(
            web.nodes@.len() as int,
            old(state).node_capacity as int,
            cfg.min_node_capacity as int,
            cfg.max_node_capacity as int,
        ),
        final(state).edge_capacity == tuned_capacity(
            web.edges@.len() as int,
            old(state).edge_capacity as int,
            cfg.min_edge_capacity as int,
            cfg.max_edge_capacity as int,
        ),
        final(state).compression_threshold == old(state).compression_threshold,
{
    let node_count = web.nodes.len();
    let edge_count = web.edges.len();
    state.node_capacity = tune_capacity(
        node_count,
        state.node_capacity,
        cfg.min_node_capacity,
        cfg.max_node_capacity,
    );
    state.edge_capacity = tune_capacity(
        edge_count,
        state.edge_capacity,
        cfg.min_edge_capacity,
        cfg.max_edge_capacity,
    );
}

/// Attaches a compressor to the web once it holds at least `threshold`
/// nodes; an attached compressor is never removed.
pub fn enable_compression_at_threshold<N, W>(web: &mut KvWeb<N, W>, threshold: usize)
    ensures
        final(web).compressor == if old(web).nodes@.len() >= threshold && old(web).compressor.is_none() {
            Some(KvWebCompressor)
        } else {
            old(web).compressor
        },
        final(web).nodes@ == old(web).nodes@,
        final(web).edges@ == old(web).edges@,
        final(web).node_index_by_token@ == old(web).node_index_by_token@,
        final(web).next_id() == old(web).next_id(),
{
    if web.nodes.len() >= threshold {
        if web.compressor.is_none() {
            web.compressor = Some(KvWebCompressor::new());
        }
    }
}

/// Default root and depth of the runtime scheduler.
#[derive(Debug)]
pub struct RuntimeSchedulerConfig {
    pub default_root: WebNodeId,
    pub default_depth: usize,
}

/// Number of ticks the runtime scheduler has run.
#[derive(Debug)]
pub struct RuntimeSchedulerState {
    pub ticks: usize,
}

impl Default for RuntimeSchedulerState {
    fn default() -> (s: Self)
        ensures
            s.ticks == 0,
    {
        RuntimeSchedulerState { ticks: 0 }
    }
}

/// Global runtime scheduler.
#[derive(Debug)]
pub struct RuntimeScheduler {
    pub cfg: RuntimeSchedulerConfig,
    pub state: RuntimeSchedulerState,
}

impl RuntimeScheduler {
    pub fn new(cfg: RuntimeSchedulerConfig) -> (s: Self)
        ensures
            s.cfg == cfg,
            s.state.ticks == 0,
    {
        RuntimeScheduler { cfg, state: RuntimeSchedulerState::default() }
    }

    /// One scheduler tick: counts the tick and keeps in the web only the
    /// nodes listed in `keep` (the nodes whose score passes the global
    /// floor), as `KvWeb::retain_nodes` does.
    pub fn tick<N, W>(&mut self, web: &mut KvWeb<N, W>, keep: &Vec<WebNodeId>)
        requires
            old(self).state.ticks < usize::MAX,
        ensures
            final(self).state.ticks == old(self).state.ticks + 1,
            final(self).cfg == old(self).cfg,
            final(web).nodes@ == old(web).nodes@.restrict(id_numbers(keep@).to_set()),
            final(web).edges@ == crate::prune::edges_within(old(web).edges@, final(web).nodes@.dom()),
            crate::prune::edges_anchored(final(web).nodes@, final(web).edges@),
            crate::prune::index_covers(final(web).nodes@, final(web).node_index_by_token@),
            final(web).next_id() == old(web).next_id(),
            final(web).compressor == old(web).compressor,
    {
        self.state.ticks = self.state.ticks + 1;
        web.retain_nodes(keep);
    }
}

/// Bounds for the GPU tuning.
#[derive(Debug)]
pub struct GpuOptimizationConfig {
    pub min_region_batch: usize,
    pub max_region_batch: usize,
    pub min_gpu_threshold: usize,
    pub max_gpu_threshold: usize,
    pub min_block_size: u32,
    pub max_block_size: u32,
}

/// Tuned GPU batching state.
#[derive(Debug)]
pub struct GpuOptimizationState {
    pub region_batch: usize,
    pub gpu_threshold: usize,
    pub block_size: u32,
}

impl Default for GpuOptimizationState {
    fn default() -> (s: Self)
        ensures
            s.region_batch == 256,
            s.gpu_threshold == 512,
            s.block_size == 64,
    {
        GpuOptimizationState { region_batch: 256, gpu_threshold: 512, block_size: 64 }
    }
}

/// One region-batch step: doubled (up to `max`) when the region outgrows
/// the batch, halved (down to `min`) otherwise.
pub open spec fn batch_step(region: int, batch: int, min: int, max: int) -> int {
    if region > batch {
        if batch * 2 < max {
            batch * 2
        } else {
            max
        }
    } else {
        if batch / 2 > min {
            batch / 2
        } else {
            min
        }
    }
}

/// One block-size step: doubled (up to `max`) for regions above 4096
/// tokens, halved (down to `min`) for regions below 512, else unchanged.
pub open spec fn block_step(region: int, block: int, min: int, max: int) -> int {
    if region > 4096 {
        if block * 2 < max {
            block * 2
        } else {
            max
        }
    } else if region < 512 {
        if block / 2 > min {
            block / 2
        } else {
            min
        }
    } else {
        block
    }
}

/// A GPU tuning step moves by at most a factor of two and respects its
/// bounds: a growing step gives `min(2 * old, max)`, a shrinking step gives
/// `max(old / 2, min)`, and a block size for a mid-sized region (512 to
/// 4096 tokens) is kept.
pub proof fn lemma_gpu_steps_bounded(region: int, old_value: int, min: int, max: int)
    ensures
        region > old_value ==> {
            let r = batch_step(region, old_value, min, max);
            &&& r <= 2 * old_value
            &&& r <= max
            &&& (r == 2 * old_value || r == max)
        },
        region <= old_value ==> {
            let r = batch_step(region, old_value, min, max);
            &&& r >= old_value / 2
            &&& r >= min
            &&& (r == old_value / 2 || r == min)
        },
        region > 4096 ==> {
            let r = block_step(region, old_value, min, max);
            &&& r <= 2 * old_value
            &&& r <= max
            &&& (r == 2 * old_value || r == max)
        },
        region < 512 ==> {
            let r = block_step(region, old_value, min, max);
            &&& r >= old_value / 2
            &&& r >= min
            &&& (r == old_value / 2 || r == min)
        },
        512 <= region <= 4096 ==> block_step(region, old_value, min, max) == old_value,
{
}

/// The integer steps of the GPU tuning, applied after the threshold has
/// been scaled: very large caches with a non-trivial region move the
/// threshold to its minimum; the region batch doubles (up to its maximum)
/// when the region outgrows it and halves (down to its minimum) otherwise;
/// the block size doubles (up to its maximum) for regions above 4096 tokens
/// and halves (down to its minimum) for regions below 512.
pub fn tune_gpu_state(
    region_size: usize,
    kv_len: usize,
    state: &mut GpuOptimizationState,
    cfg: &GpuOptimizationConfig,
)
    requires
        region_size > old(state).region_batch ==> old(state).region_batch * 2 <= usize::MAX,
        region_size > 4096 ==> old(state).block_size * 2 <= u32::MAX,
    ensures
        final(state).gpu_threshold == if kv_len > 16384 && region_size > cfg.min_gpu_threshold {
            cfg.min_gpu_threshold
        } else {
            old(state).gpu_threshold
        },
        final(state).region_batch == batch_step(
            region_size as int,
            old(state).region_batch as int,
            cfg.min_region_batch as int,
            cfg.max_region_batch as int,
        ),
        final(state).block_size == block_step(
            region_size as int,
            old(state).block_size as int,
            cfg.min_block_size as int,
            cfg.max_block_size as int,
        ),
{
    if kv_len > 16384 && region_size > cfg.min_gpu_threshold {
        state.gpu_threshold = cfg.min_gpu_threshold;
    }
    if region_size > state.region_batch {
        let doubled = state.region_batch * 2;
        state.region_batch = if doubled < cfg.max_region_batch {
            doubled
        } else {
            cfg.max_region_batch
        };
    } else {
        let halved = state.region_batch / 2;
        state.region_batch = if halved > cfg.min_region_batch {
            halved
        } else {
            cfg.min_region_batch
        };
    }
    if region_size > 4096 {
        let doubled = state.block_size * 2;
        state.block_size = if doubled < cfg.max_block_size {
            doubled
        } else {
            cfg.max_block_size
        };
    } else if region_size < 512 {
        let halved = state.block_size / 2;
        state.block_size = if halved > cfg.min_block_size {
            halved
        } else {
            cfg.min_block_size
        };
    }
}

/// Depth and GPU threshold of the transformer-side routing.
#[derive(Debug)]
pub struct TransformerOptimizationState {
    pub depth: usize,
    pub gpu_threshold: usize,
}

impl Default for TransformerOptimizationState {
    fn default() -> (s: Self)
        ensures
            s.depth == 3,
            s.gpu_threshold == 512,
    {
        TransformerOptimizationState { depth: 3, gpu_threshold: 512 }
    }
}

/// Splits `region` into consecutive chunks of `batch` values, the last one
/// possibly shorter; their concatenation is `region`.
pub fn chunk_region(region: &Vec<u32>, batch: usize) -> (chunks: Vec<Vec<u32>>)
    requires
        batch >= 1,
    ensures
        chunks@.map_values(|c: Vec<u32>| c@).flatten() == region@,
        forall|i: int|
            0 <= i < chunks@.len() ==> {
                &&& (#[trigger] chunks@[i])@.len() > 0
                &&& (i < chunks@.len() - 1 ==> chunks@[i]@.len() == batch)
                &&& chunks@[i]@.len() <= batch
            },
{
    let mut chunks: Vec<Vec<u32>> = Vec::new();
    let mut i: usize = 0;
    while i < region.len()
        invariant
            i <= region@.len(),
            batch >= 1,
            chunks@.map_values(|c: Vec<u32>| c@).flatten() == region@.take(i as int),
            forall|k: int|
                0 <= k < chunks@.len() ==> {
                    &&& (#[trigger] chunks@[k])@.len() > 0
                    &&& (k < chunks@.len() - 1 ==> chunks@[k]@.len() == batch)
                    &&& chunks@[k]@.len() <= batch
                },
            chunks@.len() > 0 && i < region@.len() ==> chunks@.last()@.len() == batch,
        decreases region.len() - i,
    {
        let end: usize = if region.len() - i > batch {
            i + batch
        } else {
            region.len()
        };
        let mut chunk: Vec<u32> = Vec::new();
        let mut j = i;
        while j < end
            invariant
                i <= j <= end,
                end <= region@.len(),
                chunk@ == region@.subrange(i as int, j as int),
            decreases end - j,
        {
            chunk.push(region[j]);
            proof {
                assert(region@.subrange(i as int, j + 1) =~= region@.subrange(i as int, j as int).push(
                    region@[j as int],
                ));
            }
            j = j + 1;
        }
        let ghost before = chunks@;
        chunks.push(chunk);
        proof {
            assert(chunks@.map_values(|c: Vec<u32>| c@) =~= before.map_values(|c: Vec<u32>| c@).push(
                chunk@,
            ));
            before.map_values(|c: Vec<u32>| c@).lemma_flatten_push(chunk@);
            assert(region@.take(i as int) + region@.subrange(i as int, end as int) =~= region@.take(
                end as int,
            ));
        }
        i = end;
    }
    proof {
        assert(region@.take(region@.len() as int) =~= region@);
    }
    chunks
}

/// One breadth-first depth step: one hop deeper (below `max_depth`) for a
/// region smaller than the target, otherwise one hop shallower (above
/// `min_depth`) for a region larger than the maximum.
pub open spec fn bfs_depth_step(
    bfs_size: int,
    depth: int,
    target: int,
    max_size: int,
    min_depth: int,
    max_depth: int,
) -> int {
    if bfs_size < target && depth < max_depth {
        depth + 1
    } else if bfs_size > max_size && depth > min_depth {
        depth - 1
    } else {
        depth
    }
}

/// The depth moves by at most one hop: deeper only for a region under the
/// target and never past `max_depth` from below it, shallower only for a
/// region over the maximum and never past `min_depth` from above it.
pub proof fn lemma_bfs_depth_one_hop(
    bfs_size: int,
    depth: int,
    target: int,
    max_size: int,
    min_depth: int,
    max_depth: int,
)
    ensures
        ({
            let r = bfs_depth_step(bfs_size, depth, target, max_size, min_depth, max_depth);
            &&& depth - 1 <= r <= depth + 1
            &&& r > depth ==> bfs_size < target && r <= max_depth
            &&& r < depth ==> bfs_size > max_size && r >= min_depth
            &&& bfs_size < target && depth < max_depth ==> r == depth + 1
            &&& target <= bfs_size <= max_size ==> r == depth
        }),
{
}

/// Breadth-first depth tuning: one hop deeper (up to `max_depth`) when the
/// region is smaller than `target_bfs_size`, one hop shallower (down to
/// `min_depth`) when it is larger than `max_bfs_size`.
pub fn tune_bfs_depth(
    bfs_size: usize,
    depth: &mut usize,
    target_bfs_size: usize,
    max_bfs_size: usize,
    min_depth: usize,
    max_depth: usize,
)
    ensures
        *final(depth) == bfs_depth_step(
            bfs_size as int,
            *old(depth) as int,
            target_bfs_size as int,
            max_bfs_size as int,
            min_depth as int,
            max_depth as int,
        ),
{
    if bfs_size < target_bfs_size && *depth < max_depth {
        *depth = *depth + 1;
    } else if bfs_size > max_bfs_size && *depth > min_depth {
        *depth = *depth - 1;
    }
}

/// Gaps between consecutive values of a region (0 where a value does not
/// grow), the input of the compression-hint estimate.
pub fn region_gaps(region: &Vec<u32>) -> (gaps: Vec<u32>)
    ensures
        gaps@.len() == if region@.len() == 0 {
            0
        } else {
            region@.len() - 1
        },
        forall|i: int|
            0 <= i < gaps@.len() ==> #[trigger] gaps@[i] == if region@[i + 1] >= region@[i] {
                (region@[i + 1] - region@[i]) as u32
            } else {
                0u32
            },
{
    let mut gaps: Vec<u32> = Vec::new();
    let mut i: usize = 1;
    while i < region.len()
        invariant
            1 <= i,
            region@.len() > 0 ==> i <= region@.len(),
            region@.len() == 0 ==> i == 1,
            gaps@.len() == i - 1,
            forall|k: int|
                0 <= k < gaps@.len() ==> #[trigger] gaps@[k] == if region@[k + 1] >= region@[k] {
                    (region@[k + 1] - region@[k]) as u32
                } else {
                    0u32
                },
        decreases region.len() - i,
    {
        gaps.push(region[i].saturating_sub(region[i - 1]));
        i = i + 1;
    }
    gaps
}

/// The warp size used for alignment: the device's, but at least 32.
pub open spec fn effective_warp(warp_size: u32) -> int {
    if warp_size < 32 {
        32
    } else {
        warp_size as int
    }
}

/// A batch size aligned to the warp: rounded down to a whole number of
/// warps (at least one warp), and at least 32.
pub open spec fn aligned_batch(batch: int, warp_size: u32) -> int {
    let warp = effective_warp(warp_size);
    let warps = if batch / warp < 1 {
        1int
    } else {
        batch / warp
    };
    if warps * warp < 32 {
        32
    } else {
        warps * warp
    }
}

/// An aligned batch is a whole number of warps, at least one warp: the
/// largest such multiple not above the batch when the batch holds a warp,
/// and exactly one warp otherwise.
pub proof fn lemma_aligned_batch_whole_warps(batch: int, warp_size: u32)
    requires
        batch >= 0,
    ensures
        ({
            let warp = effective_warp(warp_size);
            let r = aligned_batch(batch, warp_size);
            &&& r % warp == 0
            &&& r >= warp
            &&& batch >= warp ==> r <= batch && batch < r + warp
            &&& batch < warp ==> r == warp
        }),
{
    let warp = effective_warp(warp_size);
    let q = batch / warp;
    assert(q * warp <= batch && batch < q * warp + warp && q >= 0) by (nonlinear_arith)
        requires
            warp >= 32,
            batch >= 0,
            q == batch / warp,
    {
    }
    let warps = if q < 1 {
        1int
    } else {
        q
    };
    assert(warps * warp >= warp) by (nonlinear_arith)
        requires
            warps >= 1,
            warp >= 32,
    {
    }
    assert((warps * warp) % warp == 0) by {
        vstd::arithmetic::div_mod::lemma_mod_multiples_basic(warps, warp);
    }
    assert(aligned_batch(batch, warp_size) == warps * warp);
    if batch >= warp {
        assert(q >= 1) by (nonlinear_arith)
            requires
                batch >= warp,
                batch < q * warp + warp,
                warp >= 32,
        {
        }
    } else {
        assert(q < 1) by (nonlinear_arith)
            requires
                batch < warp,
                q * warp <= batch,
                q >= 0,
                warp >= 32,
        {
        }
    }
    if q < 1 {
        assert(warps * warp == warp);
    }
}

/// Aligns a batch size to the warp: rounded down to a whole number of warps
/// (at least one warp), and at least 32.
pub fn align_batch_to_warp(batch: usize, warp_size: u32) -> (res: usize)
    ensures
        res == aligned_batch(batch as int, warp_size),
{
    let warp: usize = if warp_size < 32 {
        32
    } else {
        warp_size as usize
    };
    let mut warps = batch / warp;
    if warps < 1 {
        warps = 1;
    }
    proof {
        assert(warps * warp <= if batch > warp { batch } else { warp }) by (nonlinear_arith)
            requires
                warps == (if batch / warp < 1 { 1 } else { batch / warp }),
                warp >= 32,
        ;
    }
    let aligned = warps * warp;
    if aligned < 32 {
        32
    } else {
        aligned
    }
}

/// The stream count of a balanced mask build: one per chunk, capped at 16
/// on devices with 80 or more multiprocessors and at 8 otherwise.
pub open spec fn stream_count(chunks: int, sm_count: int) -> int {
    let cap: int = if sm_count >= 80 {
        16
    } else {
        8
    };
    if chunks < cap {
        chunks
    } else {
        cap
    }
}

/// A balanced build never uses more streams than chunks, nor more than 16
/// (8 on devices under 80 multiprocessors), and uses one per chunk while
/// the chunks fit under that cap.
pub proof fn lemma_stream_count_capped(chunks: int, sm_count: int)
    requires
        chunks >= 0,
    ensures
        stream_count(chunks, sm_count) <= chunks,
        stream_count(chunks, sm_count) <= 16,
        sm_count < 80 ==> stream_count(chunks, sm_count) <= 8,
        sm_count < 80 && chunks >= 8 ==> stream_count(chunks, sm_count) == 8,
        sm_count >= 80 && chunks >= 16 ==> stream_count(chunks, sm_count) == 16,
        chunks <= 8 ==> stream_count(chunks, sm_count) == chunks,
        sm_count >= 80 && chunks <= 16 ==> stream_count(chunks, sm_count) == chunks,
{
}

/// How many streams a balanced mask build uses: one per chunk, at most 16 on
/// devices with 80 or more multiprocessors and at most 8 otherwise.
pub fn stream_count_for(chunks: usize, sm_count: u32) -> (n: usize)
    ensures
        n == stream_count(chunks as int, sm_count as int),
{
    let max_streams: usize = if sm_count >= 80 {
        16
    } else {
        8
    };
    if chunks < max_streams {
        chunks
    } else {
        max_streams
    }
}

/// Half of the streams, at least one.
pub open spec fn half_streams(streams: int) -> int {
    if streams / 2 < 1 {
        1
    } else {
        streams / 2
    }
}

/// The stream of chunk `i`: small chunks (under 1024 tokens) rotate over
/// the first half of the streams, the others are offset by half, and a chunk
/// above 4096 tokens under high load moves on to the next stream.
pub open spec fn chunk_stream(i: int, chunk_len: int, streams: int, high_load: bool) -> int {
    let half = half_streams(streams);
    let first: int = if chunk_len < 1024 {
        i % half
    } else {
        (i + half) % streams
    };
    if high_load && chunk_len > 4096 {
        (first + 1) % streams
    } else {
        first
    }
}

/// Every chunk gets one of the streams; small chunks stay in the first
/// half and take its streams in turn (consecutive chunks take consecutive
/// streams, wrapping), large chunks start half the streams further on, and
/// under high load a very large chunk goes to the stream after the one it
/// would otherwise take.
pub proof fn lemma_chunk_stream_rotation(i: int, chunk_len: int, streams: int, high_load: bool)
    requires
        streams >= 1,
        i >= 0,
    ensures
        0 <= chunk_stream(i, chunk_len, streams, high_load) < streams,
        chunk_len < 1024 ==> chunk_stream(i, chunk_len, streams, high_load) < half_streams(streams),
        chunk_len < 1024 ==> chunk_stream(i + 1, chunk_len, streams, high_load) == (chunk_stream(
            i,
            chunk_len,
            streams,
            high_load,
        ) + 1) % half_streams(streams),
        chunk_len >= 1024 && !(high_load && chunk_len > 4096) ==> chunk_stream(
            i,
            chunk_len,
            streams,
            high_load,
        ) == (i + half_streams(streams)) % streams,
        chunk_len > 4096 ==> chunk_stream(i, chunk_len, streams, true) == (chunk_stream(
            i,
            chunk_len,
            streams,
            false,
        ) + 1) % streams,
{
    let half = half_streams(streams);
    assert(half >= 1 && half <= streams);
    if chunk_len < 1024 {
        vstd::arithmetic::div_mod::lemma_add_mod_noop(i, 1, half);
        vstd::arithmetic::div_mod::lemma_mod_twice(1, half);
        if half == 1 {
            assert(1int % 1int == 0);
        } else {
            vstd::arithmetic::div_mod::lemma_small_mod(1nat, half as nat);
        }
    }
}

/// The stream that chunk `i` is launched on: small chunks (under 1024
/// tokens) take the first half of the streams in turn, the others are
/// offset by half; a chunk above 4096 tokens under high load moves on to the
/// next stream.
pub fn stream_for_chunk(i: usize, chunk_len: u32, streams: usize, high_load: bool) -> (s: usize)
    requires
        streams >= 1,
        i + streams <= usize::MAX,
    ensures
        s == chunk_stream(i as int, chunk_len as int, streams as int, high_load),
        s < streams,
{
    let half: usize = if streams / 2 < 1 {
        1
    } else {
        streams / 2
    };
    proof {
        assert(half <= streams);
    }
    let mut idx: usize = if chunk_len < 1024 {
        i % half
    } else {
        (i + half) % streams
    };
    if high_load && chunk_len > 4096 {
        idx = (idx + 1) % streams;
    }
    idx
}

/// The threads per block of a mask launch: the block size, raised to the
/// warp (itself at least 32).
pub open spec fn launch_threads(block_size: u32, warp_size: u32) -> int {
    let warp: int = if warp_size < 32 {
        32
    } else {
        warp_size as int
    };
    if block_size < warp {
        warp
    } else {
        block_size as int
    }
}

/// The threads per block of a launch are `max(block_size, warp_size, 32)`:
/// at least each of the three and equal to one of them, so a block size at
/// or above the warp is used unchanged.
pub proof fn lemma_launch_threads_is_max(block_size: u32, warp_size: u32)
    ensures
        launch_threads(block_size, warp_size) >= block_size,
        launch_threads(block_size, warp_size) >= warp_size,
        launch_threads(block_size, warp_size) >= 32,
        launch_threads(block_size, warp_size) == block_size || launch_threads(block_size, warp_size)
            == warp_size || launch_threads(block_size, warp_size) == 32,
        block_size >= warp_size && block_size >= 32 ==> launch_threads(block_size, warp_size)
            == block_size,
{
}

/// The blocks of a launch cover the chunk with the fewest blocks of that
/// many threads: `blocks * threads >= chunk_len`, and one block fewer would
/// not (or a single block, for an empty chunk).
pub proof fn lemma_launch_blocks_cover(chunk_len: u32, block_size: u32, warp_size: u32)
    ensures
        ({
            let threads = launch_threads(block_size, warp_size);
            let q: int = (chunk_len + threads - 1) / threads;
            let blocks: int = if q < 1 {
                1
            } else {
                q
            };
            &&& blocks >= 1
            &&& blocks * threads >= chunk_len
            &&& chunk_len > 0 ==> (blocks - 1) * threads < chunk_len
        }),
{
    let threads = launch_threads(block_size, warp_size);
    let n: int = chunk_len + threads - 1;
    let q: int = n / threads;
    assert(threads >= 32);
    assert(n >= 0);
    assert(q * threads <= n && n < q * threads + threads && q >= 0) by (nonlinear_arith)
        requires
            threads > 0,
            n >= 0,
            q == n / threads,
    {
    }
    assert((q - 1) * threads == q * threads - threads) by (nonlinear_arith);
    if q < 1 {
        assert(q == 0);
        assert(q * threads == 0) by (nonlinear_arith)
            requires
                q == 0,
        {
        }
        assert(chunk_len == 0);
        assert(1 * threads == threads);
    }
}

/// Threads per block and block count of one mask launch: the block size is
/// raised to the warp (at least 32), and the blocks cover the chunk (at
/// least one).
pub fn launch_shape(chunk_len: u32, block_size: u32, warp_size: u32) -> (shape: (u32, u32))
    requires
        chunk_len + launch_threads(block_size, warp_size) - 1 <= u32::MAX,
    ensures
        ({
            let threads = launch_threads(block_size, warp_size);
            let blocks: int = (chunk_len + threads - 1) / threads;
            &&& shape.0 == threads
            &&& shape.1 == if blocks < 1 {
                1
            } else {
                blocks
            }
        }),
{
    let warp: u32 = if warp_size < 32 {
        32
    } else {
        warp_size
    };
    let threads: u32 = if block_size < warp {
        warp
    } else {
        block_size
    };
    let blocks = (chunk_len + (threads - 1)) / threads;
    (threads, if blocks < 1 {
        1
    } else {
        blocks
    })
}

} // verus!
