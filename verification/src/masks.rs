//! Selection of key/value-cache positions from web regions: index lists and
//! attention-mask patterns over a cache of a given length.

use vstd::prelude::*;

use crate::region::{reach, region_tokens, token_numbers};
use crate::types::{TokenId, WebNodeId};
use crate::web::{KvWeb, WebNode};

verus! {

broadcast use vstd::seq_lib::lemma_seq_contains_after_push;

/// Cache positions of a list of tokens, in order.
pub fn tokens_to_indices(tokens: &Vec<TokenId>) -> (res: Vec<usize>)
    ensures
        res@ == token_numbers(tokens@),
{
    let mut out: Vec<usize> = Vec::new();
    let mut i: usize = 0;
    while i < tokens.len()
        invariant
            0 <= i <= tokens@.len(),
            out@ == token_numbers(tokens@.take(i as int)),
        decreases tokens.len() - i,
    {
        out.push(tokens[i].0);
        proof {
            assert(token_numbers(tokens@.take(i + 1)) =~= token_numbers(tokens@.take(i as int)).push(
                tokens@[i as int].0,
            ));
        }
        i = i + 1;
    }
    proof {
        assert(tokens@.take(tokens@.len() as int) =~= tokens@);
    }
    out
}

/// Cache positions of the tokens of the region of `root`, each once.
pub fn select_region<N, W>(web: &KvWeb<N, W>, root: WebNodeId, depth: usize) -> (res: Vec<usize>)
    ensures
        res@.no_duplicates(),
        res@.to_set() == region_tokens(web.nodes@, reach(web.edges@, root.0, depth as nat)),
{
    let tokens = web.tokens_in_region(root, depth);
    tokens_to_indices(&tokens)
}

/// The positions of the region's tokens inside a cache of `cache_len`
/// entries.
pub open spec fn subset_positions<N, W>(
    web: &KvWeb<N, W>,
    root: WebNodeId,
    depth: usize,
    cache_len: usize,
) -> Set<usize> {
    region_tokens(web.nodes@, reach(web.edges@, root.0, depth as nat)).filter(
        |t: usize| t < cache_len,
    )
}

/// A region subset holds exactly the positions inside the cache that hold
/// a token of an existing node within `depth` hops of `root`: every such
/// position is in it, and it holds no position at or past `cache_len`.
pub proof fn lemma_subset_positions_exact<N, W>(
    web: &KvWeb<N, W>,
    root: WebNodeId,
    depth: usize,
    cache_len: usize,
    v: usize,
    t: usize,
)
    ensures
        subset_positions(web, root, depth, cache_len).contains(t) ==> t < cache_len,
        reach(web.edges@, root.0, depth as nat).contains(v) && web.nodes@.contains_key(v)
            && token_numbers(web.nodes@[v].tokens@).contains(t) && t < cache_len ==> subset_positions(
            web,
            root,
            depth,
            cache_len,
        ).contains(t),
        subset_positions(web, root, depth, cache_len).contains(t) ==> region_tokens(
            web.nodes@,
            reach(web.edges@, root.0, depth as nat),
        ).contains(t),
{
}

/// The tokens of a region are exactly those owned by its existing nodes.
pub proof fn lemma_region_tokens_owned<N>(nodes: Map<usize, WebNode<N>>, region: Set<usize>, v: usize, t: usize)
    ensures
        region.contains(v) && nodes.contains_key(v) && token_numbers(nodes[v].tokens@).contains(t)
            ==> region_tokens(nodes, region).contains(t),
        region_tokens(nodes, region).contains(t) ==> exists|u: usize|
            #![trigger region.contains(u), nodes.contains_key(u)]
            region.contains(u) && nodes.contains_key(u) && token_numbers(nodes[u].tokens@).contains(t),
        region_tokens(nodes, Set::empty()) == Set::<usize>::empty(),
{
    assert(region_tokens(nodes, Set::empty()) =~= Set::<usize>::empty());
}

/// Cache positions of the region's tokens that lie inside a cache of
/// `cache_len` entries, each once (the entries a region subset extracts).
pub fn kv_subset_indices<N, W>(web: &KvWeb<N, W>, root: WebNodeId, depth: usize, cache_len: usize) -> (res:
    Vec<usize>)
    ensures
        res@.no_duplicates(),
        res@.to_set() == subset_positions(web, root, depth, cache_len),
{
    let all = select_region(web, root, depth);
    let ghost region = region_tokens(web.nodes@, reach(web.edges@, root.0, depth as nat));
    let mut out: Vec<usize> = Vec::new();
    let mut i: usize = 0;
    while i < all.len()
        invariant
            0 <= i <= all@.len(),
            all@.no_duplicates(),
            all@.to_set() == region,
            out@.no_duplicates(),
            forall|t: usize| out@.contains(t) <==> (all@.take(i as int).contains(t) && t < cache_len),
        decreases all.len() - i,
    {
        let t = all[i];
        proof {
            assert(all@.take(i + 1) =~= all@.take(i as int).push(t));
            assert(!all@.take(i as int).contains(t)) by {
                if all@.take(i as int).contains(t) {
                    let k = choose|k: int| 0 <= k < i && all@.take(i as int)[k] == t;
                    assert(all@[k] == all@[i as int]);
                }
            }
        }
        if t < cache_len {
            let ghost before = out@;
            proof {
                assert(!before.contains(t));
            }
            out.push(t);
            proof {
                assert forall|a: int, b: int| 0 <= a < b < out@.len() implies out@[a] != out@[b] by {
                    if b == before.len() {
                        assert(before[a] == out@[a]);
                        assert(before.contains(before[a]));
                    } else {
                        assert(before[a] == out@[a] && before[b] == out@[b]);
                    }
                }
            }
        }
        i = i + 1;
    }
    proof {
        assert(all@.take(all@.len() as int) =~= all@);
        assert(out@.to_set() =~= region.filter(|t: usize| t < cache_len));
    }
    out
}

/// Hard mask over a cache of `kv_len` positions: a position is set exactly
/// when it holds a token of the region of `root`.
pub fn region_mask<N, W>(web: &KvWeb<N, W>, root: WebNodeId, depth: usize, kv_len: usize) -> (mask:
    Vec<bool>)
    ensures
        mask@.len() == kv_len,
        forall|t: int|
            0 <= t < kv_len ==> #[trigger] mask@[t] == region_tokens(
                web.nodes@,
                reach(web.edges@, root.0, depth as nat),
            ).contains(t as usize),
{
    let tokens = web.tokens_in_region(root, depth);
    let ghost region = region_tokens(web.nodes@, reach(web.edges@, root.0, depth as nat));
    let mut mask: Vec<bool> = Vec::new();
    let mut i: usize = 0;
    while i < kv_len
        invariant
            0 <= i <= kv_len,
            mask@.len() == i,
            forall|t: int| 0 <= t < i ==> #[trigger] mask@[t] == false,
        decreases kv_len - i,
    {
        mask.push(false);
        i = i + 1;
    }
    let mut k: usize = 0;
    while k < tokens.len()
        invariant
            0 <= k <= tokens@.len(),
            mask@.len() == kv_len,
            token_numbers(tokens@).to_set() == region,
            forall|t: int|
                0 <= t < kv_len ==> #[trigger] mask@[t] == token_numbers(tokens@.take(k as int)).contains(
                    t as usize,
                ),
        decreases tokens.len() - k,
    {
        let t = tokens[k].0;
        proof {
            assert(token_numbers(tokens@.take(k + 1)) =~= token_numbers(tokens@.take(k as int)).push(t));
        }
        if t < kv_len {
            mask.set(t, true);
        }
        k = k + 1;
    }
    proof {
        assert(tokens@.take(tokens@.len() as int) =~= tokens@);
    }
    mask
}

/// The token positions owned by the nodes that edges out of `root` point at.
pub open spec fn neighbor_tokens<N, W>(web: &KvWeb<N, W>, root: WebNodeId) -> Set<usize> {
    Set::new(
        |t: usize|
            exists|i: int|
                0 <= i < web.edges@.len() && web.edges@[i].from == root && web.nodes@.contains_key(
                    web.edges@[i].to.0,
                ) && #[trigger] token_numbers(web.nodes@[web.edges@[i].to.0].tokens@).contains(t),
    )
}

/// Level of a position in the soft mask: 2 for tokens of the region of
/// `root`, 1 for other tokens of the nodes `root` points at, 0 otherwise.
pub open spec fn soft_level<N, W>(web: &KvWeb<N, W>, root: WebNodeId, depth: usize, t: usize) -> u8 {
    if region_tokens(web.nodes@, reach(web.edges@, root.0, depth as nat)).contains(t) {
        2
    } else if neighbor_tokens(web, root).contains(t) {
        1
    } else {
        0
    }
}

/// A token of the region of `root` gets the strong level; a token outside
/// the region that belongs to an existing node which some edge out of
/// `root` points at, whatever the edge's kind, gets the medium level; any
/// other position gets level 0 and belongs to no such node.
pub proof fn lemma_soft_level_cases<N, W>(
    web: &KvWeb<N, W>,
    root: WebNodeId,
    depth: usize,
    i: int,
    t: usize,
)
    ensures
        region_tokens(web.nodes@, reach(web.edges@, root.0, depth as nat)).contains(t) ==> soft_level(
            web,
            root,
            depth,
            t,
        ) == 2,
        0 <= i < web.edges@.len() && web.edges@[i].from == root && web.nodes@.contains_key(
            web.edges@[i].to.0,
        ) && token_numbers(web.nodes@[web.edges@[i].to.0].tokens@).contains(t) && !region_tokens(
            web.nodes@,
            reach(web.edges@, root.0, depth as nat),
        ).contains(t) ==> soft_level(web, root, depth, t) == 1,
        soft_level(web, root, depth, t) == 0 && 0 <= i < web.edges@.len() && web.edges@[i].from
            == root && web.nodes@.contains_key(web.edges@[i].to.0) ==> !token_numbers(
            web.nodes@[web.edges@[i].to.0].tokens@,
        ).contains(t),
        soft_level(web, root, depth, t) <= 2,
{
}

/// Soft mask over a cache of `kv_len` positions, as levels: 2 (strong) for
/// tokens of the region of `root`, 1 (medium) for the other tokens of the
/// nodes that `root` points at, 0 elsewhere.
pub fn soft_mask_levels<N, W>(
    web: &KvWeb<N, W>,
    root: WebNodeId,
    depth: usize,
    kv_len: usize,
) -> (levels: Vec<u8>)
    ensures
        levels@.len() == kv_len,
        forall|t: int| 0 <= t < kv_len ==> #[trigger] levels@[t] == soft_level(web, root, depth, t as usize),
{
    let strong = region_mask(web, root, depth, kv_len);
    let mut levels: Vec<u8> = Vec::new();
    let mut i: usize = 0;
    while i < kv_len
        invariant
            0 <= i <= kv_len,
            strong@.len() == kv_len,
            levels@.len() == i,
            forall|t: int| 0 <= t < i ==> #[trigger] levels@[t] == (if strong@[t] { 2u8 } else { 0u8 }),
        decreases kv_len - i,
    {
        levels.push(if strong[i] { 2 } else { 0 });
        i = i + 1;
    }
    let ghost region = region_tokens(web.nodes@, reach(web.edges@, root.0, depth as nat));
    let mut e: usize = 0;
    while e < web.edges.len()
        invariant
            0 <= e <= web.edges@.len(),
            levels@.len() == kv_len,
            strong@.len() == kv_len,
            forall|t: int| 0 <= t < kv_len ==> #[trigger] strong@[t] == region.contains(t as usize),
            forall|t: int|
                0 <= t < kv_len ==> #[trigger] levels@[t] == (if region.contains(t as usize) {
                    2u8
                } else if exists|i: int|
                    0 <= i < e && web.edges@[i].from == root && web.nodes@.contains_key(
                        web.edges@[i].to.0,
                    ) && #[trigger] token_numbers(web.nodes@[web.edges@[i].to.0].tokens@).contains(
                        t as usize,
                    ) {
                    1u8
                } else {
                    0u8
                }),
        decreases web.edges.len() - e,
    {
        let edge = &web.edges[e];
        if edge.from == root {
            match web.nodes.get(&edge.to.0) {
                Some(node) => {
                    let mut k: usize = 0;
                    while k < node.tokens.len()
                        invariant
                            0 <= k <= node.tokens@.len(),
                            0 <= e < web.edges@.len(),
                            levels@.len() == kv_len,
                            web.edges@[e as int].from == root,
                            web.nodes@.contains_key(web.edges@[e as int].to.0),
                            *node == web.nodes@[web.edges@[e as int].to.0],
                            forall|t: int|
                                0 <= t < kv_len ==> #[trigger] levels@[t] == (if region.contains(
                                    t as usize,
                                ) {
                                    2u8
                                } else if (exists|i: int|
                                    0 <= i < e && web.edges@[i].from == root
                                        && web.nodes@.contains_key(web.edges@[i].to.0)
                                        && #[trigger] token_numbers(
                                        web.nodes@[web.edges@[i].to.0].tokens@,
                                    ).contains(t as usize)) || token_numbers(
                                    node.tokens@.take(k as int),
                                ).contains(t as usize) {
                                    1u8
                                } else {
                                    0u8
                                }),
                        decreases node.tokens.len() - k,
                    {
                        let t = node.tokens[k].0;
                        proof {
                            assert(token_numbers(node.tokens@.take(k + 1)) =~= token_numbers(
                                node.tokens@.take(k as int),
                            ).push(t));
                        }
                        if t < kv_len && levels[t] == 0 {
                            levels.set(t, 1);
                        }
                        k = k + 1;
                    }
                    proof {
                        assert(node.tokens@.take(node.tokens@.len() as int) =~= node.tokens@);
                        assert forall|t: int| 0 <= t < kv_len implies #[trigger] levels@[t] == (if region.contains(
                            t as usize,
                        ) {
                            2u8
                        } else if exists|i: int|
                            0 <= i < e + 1 && web.edges@[i].from == root && web.nodes@.contains_key(
                                web.edges@[i].to.0,
                            ) && #[trigger] token_numbers(
                                web.nodes@[web.edges@[i].to.0].tokens@,
                            ).contains(t as usize) {
                            1u8
                        } else {
                            0u8
                        }) by {
                            if token_numbers(node.tokens@).contains(t as usize) {
                                assert(token_numbers(web.nodes@[web.edges@[e as int].to.0].tokens@).contains(
                                    t as usize,
                                ));
                            }
                        }
                    }
                },
                None => {},
            }
        }
        e = e + 1;
    }
    proof {
        assert forall|t: int| 0 <= t < kv_len implies #[trigger] levels@[t] == soft_level(
            web,
            root,
            depth,
            t as usize,
        ) by {
            if neighbor_tokens(web, root).contains(t as usize) {
                let i = choose|i: int|
                    0 <= i < web.edges@.len() && web.edges@[i].from == root && web.nodes@.contains_key(
                        web.edges@[i].to.0,
                    ) && #[trigger] token_numbers(web.nodes@[web.edges@[i].to.0].tokens@).contains(
                        t as usize,
                    );
                assert(token_numbers(web.nodes@[web.edges@[i].to.0].tokens@).contains(t as usize));
            }
        }
    }
    levels
}

} // verus!
