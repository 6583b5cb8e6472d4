//! Breadth-first searches from many roots, run on rayon's thread pool.

use rayon::iter::{IntoParallelRefIterator, ParallelIterator};
use vstd::prelude::*;

use crate::region::{bfs_order, bfs_region, id_numbers, reach_live};
use crate::types::WebNodeId;
use crate::web::KvWeb;

verus! {

/// What `bfs_region(web, root, depth)` promises of its result.
pub open spec fn is_bfs_region<N, W>(
    web: &KvWeb<N, W>,
    root: WebNodeId,
    depth: usize,
    res: Seq<WebNodeId>,
) -> bool {
    &&& res == bfs_order(web.nodes@, web.edges@, root, depth as nat)
    &&& res.len() > 0
    &&& res[0] == root
    &&& id_numbers(res).no_duplicates()
    &&& id_numbers(res).to_set() == reach_live(web.nodes@, web.edges@, root.0, depth as nat)
    &&& forall|k: nat|
        #![trigger reach_live(web.nodes@, web.edges@, root.0, k)]
        k <= depth ==> exists|p: int|
            #![trigger id_numbers(res).take(p)]
            0 <= p <= res.len() && id_numbers(res).take(p).to_set() == reach_live(
                web.nodes@,
                web.edges@,
                root.0,
                k,
            )
}

/// Calls `bfs_region` for every root through rayon's
/// `par_iter().map(..).collect()`. Trusted: rayon runs the closure once per
/// root, and collecting an indexed parallel iterator into a `Vec` writes
/// each result at its item's position (rayon's `collect_with_consumer`), so
/// the list has one entry per root, in root order, each pairing the root
/// with the verified search from it.
#[verifier::external_body]
fn par_bfs_regions<N: Sync, W: Sync>(
    web: &KvWeb<N, W>,
    roots: &[WebNodeId],
    depth: usize,
) -> (res: Vec<(WebNodeId, Vec<WebNodeId>)>)
    ensures
        res@.len() == roots@.len(),
        forall|i: int|
            0 <= i < res@.len() ==> (#[trigger] res@[i]).0 == roots@[i] && is_bfs_region(
                web,
                roots@[i],
                depth,
                res@[i].1@,
            ),
{
    roots.par_iter().map(|root| (*root, bfs_region(web, *root, depth))).collect()
}

/// Breadth-first regions from several roots, searched in parallel: one
/// entry per root, in root order, pairing the root with its region.
pub fn bfs_region_parallel<N: Sync, W: Sync>(
    web: &KvWeb<N, W>,
    roots: &[WebNodeId],
    depth: usize,
) -> (res: Vec<(WebNodeId, Vec<WebNodeId>)>)
    ensures
        res@.len() == roots@.len(),
        forall|i: int|
            0 <= i < res@.len() ==> (#[trigger] res@[i]).0 == roots@[i] && is_bfs_region(
                web,
                roots@[i],
                depth,
                res@[i].1@,
            ),
{
    par_bfs_regions(web, roots, depth)
}

} // verus!
