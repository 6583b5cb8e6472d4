//! Region queries: the nodes and tokens within a number of hops of a root.

use std::collections::HashSet;
use vstd::prelude::*;

use crate::types::{TokenId, WebNodeId};
use crate::web::{KvWeb, WebEdge, WebNode};

verus! {

/// Targets of the edges whose source lies in `from`.
pub open spec fn step<W>(edges: Seq<WebEdge<W>>, from: Set<usize>) -> Set<usize> {
    Set::new(
        |v: usize|
            exists|i: int| 0 <= i < edges.len() && #[trigger] from.contains(edges[i].from.0) && edges[i].to.0 == v,
    )
}

/// The nodes reachable from `root` over at most `depth` edges.
pub open spec fn reach<W>(edges: Seq<WebEdge<W>>, root: usize, depth: nat) -> Set<usize>
    decreases depth,
{
    if depth == 0 {
        set![root]
    } else {
        let prev = reach(edges, root, (depth - 1) as nat);
        prev.union(step(edges, prev))
    }
}

/// The numbers inside a sequence of node ids.
pub open spec fn id_numbers(ids: Seq<WebNodeId>) -> Seq<usize> {
    ids.map_values(|x: WebNodeId| x.0)
}

/// The numbers inside a sequence of token ids.
pub open spec fn token_numbers(ids: Seq<TokenId>) -> Seq<usize> {
    ids.map_values(|x: TokenId| x.0)
}

/// The token positions owned by the existing nodes among `region`.
pub open spec fn region_tokens<N>(nodes: Map<usize, WebNode<N>>, region: Set<usize>) -> Set<usize> {
    Set::new(
        |t: usize|
            exists|v: usize|
                #![trigger region.contains(v), nodes.contains_key(v)]
                region.contains(v) && nodes.contains_key(v) && token_numbers(nodes[v].tokens@).contains(
                    t,
                ),
    )
}

/// Reaching sets grow with the number of hops allowed.
pub proof fn lemma_reach_monotone<W>(edges: Seq<WebEdge<W>>, root: usize, d1: nat, d2: nat)
    requires
        d1 <= d2,
    ensures
        reach(edges, root, d1).subset_of(reach(edges, root, d2)),
    decreases d2 - d1,
{
    if d1 < d2 {
        lemma_reach_monotone(edges, root, d1, (d2 - 1) as nat);
    }
}

/// The region grows one hop at a time along edge direction: the root is in
/// every region, the target of any edge leaving a node within `d` hops is
/// within `d + 1` hops, and a node within `d + 1` hops is within `d` hops or
/// the target of an edge leaving a node within `d` hops.
pub proof fn lemma_reach_hops<W>(edges: Seq<WebEdge<W>>, root: usize, d: nat, i: int, v: usize)
    ensures
        reach(edges, root, d).contains(root),
        reach(edges, root, 0) == set![root],
        0 <= i < edges.len() && reach(edges, root, d).contains(edges[i].from.0) ==> reach(
            edges,
            root,
            d + 1,
        ).contains(edges[i].to.0),
        reach(edges, root, d + 1).contains(v) ==> reach(edges, root, d).contains(v) || exists|j: int|
            0 <= j < edges.len() && reach(edges, root, d).contains(#[trigger] edges[j].from.0)
                && edges[j].to.0 == v,
    decreases d,
{
    if d > 0 {
        lemma_reach_hops(edges, root, (d - 1) as nat, i, v);
    }
    if 0 <= i < edges.len() && reach(edges, root, d).contains(edges[i].from.0) {
        assert(step(edges, reach(edges, root, d)).contains(edges[i].to.0));
    }
}

/// Once a reaching set is closed under one more hop, it stays the same for
/// every larger number of hops.
pub proof fn lemma_reach_stable<W>(edges: Seq<WebEdge<W>>, root: usize, d: nat, k: nat)
    requires
        d <= k,
        step(edges, reach(edges, root, d)).subset_of(reach(edges, root, d)),
    ensures
        reach(edges, root, k) == reach(edges, root, d),
    decreases k - d,
{
    if d < k {
        lemma_reach_stable(edges, root, d, (k - 1) as nat);
        assert(reach(edges, root, k) =~= reach(edges, root, d));
    }
}

/// Ids of the existing nodes that edges out of `from` point at.
pub open spec fn step_live<N, W>(
    nodes: Map<usize, WebNode<N>>,
    edges: Seq<WebEdge<W>>,
    from: Set<usize>,
) -> Set<usize> {
    Set::new(
        |v: usize|
            exists|i: int|
                0 <= i < edges.len() && #[trigger] from.contains(edges[i].from.0) && nodes.contains_key(
                    edges[i].to.0,
                ) && nodes[edges[i].to.0].id.0 == v,
    )
}

/// The nodes reachable from `root` over at most `depth` edges when only
/// edges into existing nodes are followed (the root itself need not exist).
pub open spec fn reach_live<N, W>(
    nodes: Map<usize, WebNode<N>>,
    edges: Seq<WebEdge<W>>,
    root: usize,
    depth: nat,
) -> Set<usize>
    decreases depth,
{
    if depth == 0 {
        set![root]
    } else {
        let prev = reach_live(nodes, edges, root, (depth - 1) as nat);
        prev.union(step_live(nodes, edges, prev))
    }
}

/// Once a live reaching set is closed under one more hop, it stays the same
/// for every larger number of hops.
pub proof fn lemma_reach_live_stable<N, W>(
    nodes: Map<usize, WebNode<N>>,
    edges: Seq<WebEdge<W>>,
    root: usize,
    d: nat,
    k: nat,
)
    requires
        d <= k,
        step_live(nodes, edges, reach_live(nodes, edges, root, d)).subset_of(
            reach_live(nodes, edges, root, d),
        ),
    ensures
        reach_live(nodes, edges, root, k) == reach_live(nodes, edges, root, d),
    decreases k - d,
{
    if d < k {
        lemma_reach_live_stable(nodes, edges, root, d, (k - 1) as nat);
        assert(reach_live(nodes, edges, root, k) =~= reach_live(nodes, edges, root, d));
    }
}

/// In a web whose nodes are stored under their own ids, the breadth-first
/// region (which follows only edges into existing nodes) lies within the
/// region of the same root and depth.
pub proof fn lemma_bfs_within_region<N, W>(web: &KvWeb<N, W>, root: usize, depth: nat)
    requires
        web.wf(),
    ensures
        reach_live(web.nodes@, web.edges@, root, depth).subset_of(reach(web.edges@, root, depth)),
    decreases depth,
{
    if depth > 0 {
        lemma_bfs_within_region(web, root, (depth - 1) as nat);
        let prev_live = reach_live(web.nodes@, web.edges@, root, (depth - 1) as nat);
        let prev = reach(web.edges@, root, (depth - 1) as nat);
        assert forall|v: usize| step_live(web.nodes@, web.edges@, prev_live).contains(v) implies step(
            web.edges@,
            prev,
        ).contains(v) by {
            let i = choose|i: int|
                0 <= i < web.edges@.len() && #[trigger] prev_live.contains(web.edges@[i].from.0)
                    && web.nodes@.contains_key(web.edges@[i].to.0) && web.nodes@[web.edges@[i].to.0].id.0
                    == v;
            assert(prev.contains(web.edges@[i].from.0));
        }
    }
}

impl<N, W> KvWeb<N, W> {
    /// The nodes that existing edges out of `node` point to, in edge order;
    /// edges whose target does not exist are skipped.
    pub fn neighbors(&self, node: WebNodeId) -> (res: Vec<&WebNode<N>>)
        ensures
            res@.len() == self.neighbor_edges(node, self.edges@.len() as int).len(),
            forall|i: int|
                0 <= i < res@.len() ==> *res@[i] == self.nodes@[self.edges@[self.neighbor_edges(
                    node,
                    self.edges@.len() as int,
                )[i]].to.0],
    {
        let mut out: Vec<&WebNode<N>> = Vec::new();
        let mut i: usize = 0;
        while i < self.edges.len()
            invariant
                0 <= i <= self.edges@.len(),
                out@.len() == self.neighbor_edges(node, i as int).len(),
                forall|j: int|
                    0 <= j < out@.len() ==> *out@[j] == self.nodes@[self.edges@[self.neighbor_edges(
                        node,
                        i as int,
                    )[j]].to.0],
            decreases self.edges.len() - i,
        {
            let edge = &self.edges[i];
            if edge.from == node {
                match self.nodes.get(&edge.to.0) {
                    Some(n) => {
                        out.push(n);
                    },
                    None => {},
                }
            }
            i = i + 1;
        }
        out
    }

    /// Positions, among the first `upto` edges, of the edges that leave
    /// `node` and point at an existing node, in edge order.
    pub open spec fn neighbor_edges(&self, node: WebNodeId, upto: int) -> Seq<int>
        decreases upto,
    {
        if upto <= 0 {
            Seq::empty()
        } else {
            let prev = self.neighbor_edges(node, upto - 1);
            let e = self.edges@[upto - 1];
            if e.from == node && self.nodes@.contains_key(e.to.0) {
                prev.push(upto - 1)
            } else {
                prev
            }
        }
    }

    /// The nodes reachable from `root` over at most `depth` edges, each
    /// once; the root is always among them.
    pub fn nodes_in_region(&self, root: WebNodeId, depth: usize) -> (res: Vec<WebNodeId>)
        ensures
            id_numbers(res@).no_duplicates(),
            id_numbers(res@).to_set() == reach(self.edges@, root.0, depth as nat),
    {
        let ghost edges = self.edges@;
        let mut visited: HashSet<usize> = HashSet::new();
        let mut out: Vec<WebNodeId> = Vec::new();
        let mut frontier: HashSet<usize> = HashSet::new();
        visited.insert(root.0);
        frontier.insert(root.0);
        out.push(root);
        proof {
            assert(id_numbers(out@) =~= Seq::<usize>::empty().push(root.0));
            Seq::<usize>::empty().lemma_push_to_set_commute(root.0);
            assert(Seq::<usize>::empty().to_set() =~= Set::<usize>::empty());
            assert(visited@ =~= reach(edges, root.0, 0));
        }
        let mut d: usize = 0;
        while d < depth
            invariant
                edges == self.edges@,
                0 <= d <= depth,
                visited@ == reach(edges, root.0, d as nat),
                id_numbers(out@).to_set() == visited@,
                id_numbers(out@).no_duplicates(),
                frontier@.subset_of(visited@),
                forall|i: int|
                    0 <= i < edges.len() && #[trigger] visited@.contains(edges[i].from.0)
                        && !frontier@.contains(edges[i].from.0) ==> visited@.contains(edges[i].to.0),
            decreases depth - d,
        {
            let ghost v0 = visited@;
            let mut next: HashSet<usize> = HashSet::new();
            let mut j: usize = 0;
            while j < self.edges.len()
                invariant
                    edges == self.edges@,
                    0 <= j <= edges.len(),
                    v0.subset_of(visited@),
                    id_numbers(out@).to_set() == visited@,
                    id_numbers(out@).no_duplicates(),
                    next@ == visited@.difference(v0),
                    frontier@.subset_of(v0),
                    forall|v: usize|
                        #[trigger] visited@.contains(v) && !v0.contains(v) ==> exists|i: int|
                            0 <= i < j && frontier@.contains(edges[i].from.0) && edges[i].to.0 == v,
                    forall|i: int|
                        0 <= i < j && #[trigger] frontier@.contains(edges[i].from.0) ==> visited@.contains(
                            edges[i].to.0,
                        ),
                decreases edges.len() - j,
            {
                let from = self.edges[j].from.0;
                let to = self.edges[j].to;
                if frontier.contains(&from) && !visited.contains(&to.0) {
                    proof {
                        assert(!id_numbers(out@).contains(to.0));
                    }
                    visited.insert(to.0);
                    next.insert(to.0);
                    let ghost before = id_numbers(out@);
                    out.push(to);
                    proof {
                        assert(id_numbers(out@) =~= before.push(to.0));
                        before.lemma_push_to_set_commute(to.0);
                        assert(id_numbers(out@).to_set() =~= visited@);
                        assert(next@ =~= visited@.difference(v0));
                    }
                }
                j = j + 1;
            }
            proof {
                let r = reach(edges, root.0, d as nat);
                let r1 = reach(edges, root.0, (d + 1) as nat);
                assert(r1 == r.union(step(edges, r)));
                assert forall|v: usize| r1.contains(v) implies visited@.contains(v) by {
                    if !r.contains(v) {
                        let i = choose|i: int|
                            0 <= i < edges.len() && #[trigger] r.contains(edges[i].from.0)
                                && edges[i].to.0 == v;
                        if !frontier@.contains(edges[i].from.0) {
                            assert(v0.contains(edges[i].from.0));
                        }
                    }
                }
                assert forall|v: usize| visited@.contains(v) implies r1.contains(v) by {
                    if !v0.contains(v) {
                        let i = choose|i: int|
                            0 <= i < edges.len() && frontier@.contains(edges[i].from.0)
                                && edges[i].to.0 == v;
                        assert(r.contains(edges[i].from.0));
                        assert(step(edges, r).contains(v));
                    }
                }
                assert(visited@ =~= r1);
                assert forall|i: int|
                    0 <= i < edges.len() && #[trigger] visited@.contains(edges[i].from.0)
                        && !next@.contains(edges[i].from.0) implies visited@.contains(
                    edges[i].to.0,
                ) by {
                    assert(v0.contains(edges[i].from.0));
                    if !frontier@.contains(edges[i].from.0) {
                        assert(v0.contains(edges[i].to.0));
                    }
                }
            }
            frontier = next;
            d = d + 1;
            if frontier.len() == 0 {
                proof {
                    let r = reach(edges, root.0, d as nat);
                    assert(frontier@ =~= Set::<usize>::empty());
                    assert forall|v: usize| step(edges, r).contains(v) implies r.contains(v) by {
                        let i = choose|i: int|
                            0 <= i < edges.len() && #[trigger] r.contains(edges[i].from.0)
                                && edges[i].to.0 == v;
                        assert(visited@.contains(edges[i].from.0));
                    }
                    lemma_reach_stable(edges, root.0, d as nat, depth as nat);
                }
                return out;
            }
        }
        out
    }

    /// The token positions owned by the existing nodes of the region of
    /// `root`, each once.
    pub fn tokens_in_region(&self, root: WebNodeId, depth: usize) -> (res: Vec<TokenId>)
        ensures
            token_numbers(res@).no_duplicates(),
            token_numbers(res@).to_set() == region_tokens(
                self.nodes@,
                reach(self.edges@, root.0, depth as nat),
            ),
    {
        let region = self.nodes_in_region(root, depth);
        let ghost rset = reach(self.edges@, root.0, depth as nat);
        let mut seen: HashSet<usize> = HashSet::new();
        let mut out: Vec<TokenId> = Vec::new();
        let mut i: usize = 0;
        while i < region.len()
            invariant
                0 <= i <= region@.len(),
                id_numbers(region@).to_set() == rset,
                token_numbers(out@).no_duplicates(),
                token_numbers(out@).to_set() == seen@,
                seen@ == region_tokens(self.nodes@, id_numbers(region@.take(i as int)).to_set()),
            decreases region.len() - i,
        {
            let id = region[i];
            let ghost before_set = id_numbers(region@.take(i as int)).to_set();
            let ghost after_set = id_numbers(region@.take(i + 1)).to_set();
            proof {
                assert(id_numbers(region@.take(i + 1)) =~= id_numbers(region@.take(i as int)).push(
                    id.0,
                ));
                id_numbers(region@.take(i as int)).lemma_push_to_set_commute(id.0);
                assert(after_set =~= before_set.insert(id.0));
            }
            match self.nodes.get(&id.0) {
                Some(node) => {
                    let ghost s0 = seen@;
                    let mut k: usize = 0;
                    while k < node.tokens.len()
                        invariant
                            0 <= k <= node.tokens@.len(),
                            token_numbers(out@).no_duplicates(),
                            token_numbers(out@).to_set() == seen@,
                            seen@ == s0.union(token_numbers(node.tokens@.take(k as int)).to_set()),
                        decreases node.tokens.len() - k,
                    {
                        let t = node.tokens[k];
                        proof {
                            assert(token_numbers(node.tokens@.take(k + 1)) =~= token_numbers(
                                node.tokens@.take(k as int),
                            ).push(t.0));
                            token_numbers(node.tokens@.take(k as int)).lemma_push_to_set_commute(t.0);
                        }
                        if !seen.contains(&t.0) {
                            let ghost before = token_numbers(out@);
                            seen.insert(t.0);
                            out.push(t);
                            proof {
                                assert(token_numbers(out@) =~= before.push(t.0));
                                before.lemma_push_to_set_commute(t.0);
                                assert(token_numbers(out@).to_set() =~= seen@);
                            }
                        }
                        proof {
                            assert(seen@ =~= s0.union(
                                token_numbers(node.tokens@.take(k + 1)).to_set(),
                            ));
                        }
                        k = k + 1;
                    }
                    proof {
                        assert(node.tokens@.take(node.tokens@.len() as int) =~= node.tokens@);
                        let full = token_numbers(node.tokens@).to_set();
                        assert forall|t: usize|
                            region_tokens(self.nodes@, after_set).contains(t) implies seen@.contains(
                            t,
                        ) by {
                            let v = choose|v: usize|
                                #![trigger after_set.contains(v), self.nodes@.contains_key(v)]
                                after_set.contains(v) && self.nodes@.contains_key(v)
                                    && token_numbers(self.nodes@[v].tokens@).contains(t);
                            if v != id.0 {
                                assert(before_set.contains(v));
                                assert(region_tokens(self.nodes@, before_set).contains(t));
                            }
                        }
                        assert forall|t: usize| seen@.contains(t) implies region_tokens(
                            self.nodes@,
                            after_set,
                        ).contains(t) by {
                            if s0.contains(t) {
                                let v = choose|v: usize|
                                    #![trigger before_set.contains(v), self.nodes@.contains_key(v)]
                                    before_set.contains(v) && self.nodes@.contains_key(v)
                                        && token_numbers(self.nodes@[v].tokens@).contains(t);
                                assert(after_set.contains(v));
                            } else {
                                assert(after_set.contains(id.0));
                            }
                        }
                        assert(seen@ =~= region_tokens(self.nodes@, after_set));
                    }
                },
                None => {
                    proof {
                        assert forall|t: usize|
                            region_tokens(self.nodes@, after_set).contains(t) implies seen@.contains(
                            t,
                        ) by {
                            let v = choose|v: usize|
                                #![trigger after_set.contains(v), self.nodes@.contains_key(v)]
                                after_set.contains(v) && self.nodes@.contains_key(v)
                                    && token_numbers(self.nodes@[v].tokens@).contains(t);
                            assert(before_set.contains(v));
                        }
                        assert forall|t: usize| seen@.contains(t) implies region_tokens(
                            self.nodes@,
                            after_set,
                        ).contains(t) by {
                            let v = choose|v: usize|
                                #![trigger before_set.contains(v), self.nodes@.contains_key(v)]
                                before_set.contains(v) && self.nodes@.contains_key(v)
                                    && token_numbers(self.nodes@[v].tokens@).contains(t);
                            assert(after_set.contains(v));
                        }
                        assert(seen@ =~= region_tokens(self.nodes@, after_set));
                    }
                },
            }
            i = i + 1;
        }
        proof {
            assert(region@.take(region@.len() as int) =~= region@);
        }
        out
    }
}

/// A state of the breadth-first search: the visited id numbers, the ids
/// listed so far, and the frontier being gathered.
pub type BfsState = (Set<usize>, Seq<WebNodeId>, Seq<usize>);

/// The state after scanning the first `j` edges for those that leave `u`:
/// each one that enters an existing, not yet visited node visits that node,
/// lists it and adds it to the frontier.
pub open spec fn scan_edges<N, W>(
    nodes: Map<usize, WebNode<N>>,
    edges: Seq<WebEdge<W>>,
    u: usize,
    j: nat,
    s: BfsState,
) -> BfsState
    decreases j,
{
    if j == 0 {
        s
    } else {
        let p = scan_edges(nodes, edges, u, (j - 1) as nat, s);
        let e = edges[j - 1];
        if e.from.0 == u && nodes.contains_key(e.to.0) && !p.0.contains(nodes[e.to.0].id.0) {
            (p.0.insert(nodes[e.to.0].id.0), p.1.push(nodes[e.to.0].id), p.2.push(nodes[e.to.0].id.0))
        } else {
            p
        }
    }
}

/// The state after scanning all edges out of each of the first `a` nodes of
/// the frontier `f`, in frontier order.
pub open spec fn scan_frontier<N, W>(
    nodes: Map<usize, WebNode<N>>,
    edges: Seq<WebEdge<W>>,
    f: Seq<usize>,
    a: nat,
    s: BfsState,
) -> BfsState
    decreases a,
{
    if a == 0 {
        s
    } else {
        scan_edges(nodes, edges, f[a - 1], edges.len(), scan_frontier(nodes, edges, f, (a - 1) as nat, s))
    }
}

/// The state of the breadth-first search from `root` after `d` rounds; its
/// frontier holds the nodes discovered in the last round.
pub open spec fn bfs_layers<N, W>(
    nodes: Map<usize, WebNode<N>>,
    edges: Seq<WebEdge<W>>,
    root: WebNodeId,
    d: nat,
) -> BfsState
    decreases d,
{
    if d == 0 {
        (Set::empty().insert(root.0), seq![root], seq![root.0])
    } else {
        let p = bfs_layers(nodes, edges, root, (d - 1) as nat);
        scan_frontier(nodes, edges, p.2, p.2.len(), (p.0, p.1, Seq::empty()))
    }
}

/// The ids listed by a breadth-first search from `root` over `depth` rounds,
/// in discovery order: round by round, the nodes of the previous round in
/// their order, and for each the edges out of it in edge order.
pub open spec fn bfs_order<N, W>(
    nodes: Map<usize, WebNode<N>>,
    edges: Seq<WebEdge<W>>,
    root: WebNodeId,
    depth: nat,
) -> Seq<WebNodeId> {
    bfs_layers(nodes, edges, root, depth).1
}

/// Once a round discovers nothing, later rounds list nothing more.
proof fn lemma_bfs_settled<N, W>(
    nodes: Map<usize, WebNode<N>>,
    edges: Seq<WebEdge<W>>,
    root: WebNodeId,
    d: nat,
    k: nat,
)
    requires
        d <= k,
        bfs_layers(nodes, edges, root, d).2.len() == 0,
    ensures
        bfs_layers(nodes, edges, root, k).1 == bfs_layers(nodes, edges, root, d).1,
        bfs_layers(nodes, edges, root, k).2.len() == 0,
    decreases k - d,
{
    if d < k {
        lemma_bfs_settled(nodes, edges, root, d, (k - 1) as nat);
    }
}

/// Breadth-first expansion from `root` over at most `depth` hops, following
/// only edges into existing nodes. The result lists every reached node once,
/// in the order the search discovers them (`bfs_order`: within a round, the
/// nodes of the previous round in their order, and for each the edges out
/// of it in edge order), starting with the root; nodes come in order of hop
/// distance, so the nodes within `k` hops (for every `k <= depth`) form a
/// prefix of the result.
pub fn bfs_region<N, W>(web: &KvWeb<N, W>, root: WebNodeId, depth: usize) -> (res: Vec<WebNodeId>)
    ensures
        res@ == bfs_order(web.nodes@, web.edges@, root, depth as nat),
        res@.len() > 0,
        res@[0] == root,
        id_numbers(res@).no_duplicates(),
        id_numbers(res@).to_set() == reach_live(web.nodes@, web.edges@, root.0, depth as nat),
        forall|k: nat|
            #![trigger reach_live(web.nodes@, web.edges@, root.0, k)]
            k <= depth ==> exists|p: int|
                #![trigger id_numbers(res@).take(p)]
                0 <= p <= res@.len() && id_numbers(res@).take(p).to_set() == reach_live(
                    web.nodes@,
                    web.edges@,
                    root.0,
                    k,
                ),
{
    let ghost nodes = web.nodes@;
    let ghost edges = web.edges@;
    let mut visited: HashSet<usize> = HashSet::new();
    let mut out: Vec<WebNodeId> = Vec::new();
    let mut frontier: Vec<usize> = Vec::new();
    visited.insert(root.0);
    frontier.push(root.0);
    out.push(root);
    proof {
        assert(id_numbers(out@) =~= Seq::<usize>::empty().push(root.0));
        Seq::<usize>::empty().lemma_push_to_set_commute(root.0);
        assert(Seq::<usize>::empty().to_set() =~= Set::<usize>::empty());
        assert(visited@ =~= reach_live(nodes, edges, root.0, 0));
        assert(id_numbers(out@).take(1) =~= id_numbers(out@));
    }
    let ghost mut bounds: Seq<int> = seq![1int];
    let mut d: usize = 0;
    while d < depth
        invariant
            nodes == web.nodes@,
            edges == web.edges@,
            0 <= d <= depth,
            bounds.len() == d + 1,
            forall|k: int|
                0 <= k <= d ==> 0 <= #[trigger] bounds[k] <= out@.len() && id_numbers(out@).take(
                    bounds[k],
                ).to_set() == reach_live(nodes, edges, root.0, k as nat),
            out@.len() > 0,
            out@[0] == root,
            visited@ == reach_live(nodes, edges, root.0, d as nat),
            visited@ == bfs_layers(nodes, edges, root, d as nat).0,
            out@ == bfs_layers(nodes, edges, root, d as nat).1,
            frontier@ == bfs_layers(nodes, edges, root, d as nat).2,
            id_numbers(out@).to_set() == visited@,
            id_numbers(out@).no_duplicates(),
            frontier@.to_set().subset_of(visited@),
            forall|i: int|
                0 <= i < edges.len() && #[trigger] visited@.contains(edges[i].from.0)
                    && !frontier@.contains(edges[i].from.0) && nodes.contains_key(edges[i].to.0)
                    ==> visited@.contains(nodes[edges[i].to.0].id.0),
        decreases depth - d,
    {
        let ghost v0 = visited@;
        let ghost f0 = frontier@;
        let ghost o0 = out@;
        let mut next: Vec<usize> = Vec::new();
        let ghost init0: BfsState = (v0, o0, Seq::<usize>::empty());
        let mut a: usize = 0;
        while a < frontier.len()
            invariant
                nodes == web.nodes@,
                edges == web.edges@,
                f0 == frontier@,
                visited@ == scan_frontier(nodes, edges, f0, a as nat, init0).0,
                out@ == scan_frontier(nodes, edges, f0, a as nat, init0).1,
                next@ == scan_frontier(nodes, edges, f0, a as nat, init0).2,
                o0.len() <= out@.len(),
                out@.take(o0.len() as int) == o0,
                0 <= a <= frontier@.len(),
                out@.len() > 0,
                out@[0] == root,
                v0.subset_of(visited@),
                id_numbers(out@).to_set() == visited@,
                id_numbers(out@).no_duplicates(),
                next@.to_set() == visited@.difference(v0),
                f0.to_set().subset_of(v0),
                forall|v: usize|
                    #[trigger] visited@.contains(v) && !v0.contains(v) ==> exists|i: int|
                        0 <= i < edges.len() && f0.contains(edges[i].from.0) && nodes.contains_key(
                            edges[i].to.0,
                        ) && nodes[edges[i].to.0].id.0 == v,
                forall|b: int, i: int|
                    0 <= b < a && 0 <= i < edges.len() && #[trigger] f0[b] == #[trigger] edges[i].from.0
                        && nodes.contains_key(edges[i].to.0) ==> visited@.contains(
                        nodes[edges[i].to.0].id.0,
                    ),
            decreases frontier.len() - a,
        {
            let u = frontier[a];
            let mut j: usize = 0;
            while j < web.edges.len()
                invariant
                    nodes == web.nodes@,
                    edges == web.edges@,
                    f0 == frontier@,
                    o0.len() <= out@.len(),
                    out@.take(o0.len() as int) == o0,
                    0 <= a < frontier@.len(),
                    u == f0[a as int],
                    0 <= j <= edges.len(),
                    visited@ == scan_edges(nodes, edges, u, j as nat, scan_frontier(nodes, edges, f0, a as nat, init0)).0,
                    out@ == scan_edges(nodes, edges, u, j as nat, scan_frontier(nodes, edges, f0, a as nat, init0)).1,
                    next@ == scan_edges(nodes, edges, u, j as nat, scan_frontier(nodes, edges, f0, a as nat, init0)).2,
                    out@.len() > 0,
                    out@[0] == root,
                    v0.subset_of(visited@),
                    id_numbers(out@).to_set() == visited@,
                    id_numbers(out@).no_duplicates(),
                    next@.to_set() == visited@.difference(v0),
                    f0.to_set().subset_of(v0),
                    forall|v: usize|
                        #[trigger] visited@.contains(v) && !v0.contains(v) ==> exists|i: int|
                            0 <= i < edges.len() && f0.contains(edges[i].from.0)
                                && nodes.contains_key(edges[i].to.0) && nodes[edges[i].to.0].id.0
                                == v,
                    forall|b: int, i: int|
                        0 <= b < a && 0 <= i < edges.len() && #[trigger] f0[b]
                            == #[trigger] edges[i].from.0 && nodes.contains_key(edges[i].to.0)
                            ==> visited@.contains(nodes[edges[i].to.0].id.0),
                    forall|i: int|
                        0 <= i < j && #[trigger] edges[i].from.0 == u && nodes.contains_key(
                            edges[i].to.0,
                        ) ==> visited@.contains(nodes[edges[i].to.0].id.0),
                decreases edges.len() - j,
            {
                let edge = &web.edges[j];
                if edge.from.0 == u {
                    match web.nodes.get(&edge.to.0) {
                        Some(n) => {
                            let nid = n.id;
                            if !visited.contains(&nid.0) {
                                proof {
                                    assert(f0.contains(edges[j as int].from.0)) by {
                                        assert(f0[a as int] == u);
                                    }
                                    assert(!id_numbers(out@).contains(nid.0));
                                }
                                visited.insert(nid.0);
                                let ghost before_next = next@;
                                next.push(nid.0);
                                let ghost before = id_numbers(out@);
                                out.push(nid);
                                proof {
                                    assert(out@.take(o0.len() as int) =~= o0);
                                    assert(id_numbers(out@) =~= before.push(nid.0));
                                    before.lemma_push_to_set_commute(nid.0);
                                    assert(id_numbers(out@).to_set() =~= visited@);
                                    before_next.lemma_push_to_set_commute(nid.0);
                                    assert(next@.to_set() =~= visited@.difference(v0));
                                }
                            }
                        },
                        None => {},
                    }
                }
                j = j + 1;
            }
            proof {
                assert(scan_frontier(nodes, edges, f0, (a + 1) as nat, init0) == scan_edges(
                    nodes,
                    edges,
                    u,
                    edges.len(),
                    scan_frontier(nodes, edges, f0, a as nat, init0),
                ));
            }
            a = a + 1;
        }
        proof {
            let r = reach_live(nodes, edges, root.0, d as nat);
            let r1 = reach_live(nodes, edges, root.0, (d + 1) as nat);
            assert(r1 == r.union(step_live(nodes, edges, r)));
            assert forall|v: usize| r1.contains(v) implies visited@.contains(v) by {
                if !r.contains(v) {
                    let i = choose|i: int|
                        0 <= i < edges.len() && #[trigger] r.contains(edges[i].from.0)
                            && nodes.contains_key(edges[i].to.0) && nodes[edges[i].to.0].id.0 == v;
                    if f0.contains(edges[i].from.0) {
                        let b = choose|b: int| 0 <= b < f0.len() && f0[b] == edges[i].from.0;
                        assert(f0[b] == edges[i].from.0);
                    }
                }
            }
            assert forall|v: usize| visited@.contains(v) implies r1.contains(v) by {
                if !v0.contains(v) {
                    let i = choose|i: int|
                        0 <= i < edges.len() && f0.contains(edges[i].from.0) && nodes.contains_key(
                            edges[i].to.0,
                        ) && nodes[edges[i].to.0].id.0 == v;
                    assert(f0.to_set().contains(edges[i].from.0));
                    assert(r.contains(edges[i].from.0));
                    assert(step_live(nodes, edges, r).contains(v));
                }
            }
            assert(visited@ =~= r1);
            assert forall|i: int|
                0 <= i < edges.len() && #[trigger] visited@.contains(edges[i].from.0)
                    && !next@.contains(edges[i].from.0) && nodes.contains_key(edges[i].to.0)
                    implies visited@.contains(nodes[edges[i].to.0].id.0) by {
                assert(!next@.to_set().contains(edges[i].from.0));
                assert(v0.contains(edges[i].from.0));
                if f0.contains(edges[i].from.0) {
                    let b = choose|b: int| 0 <= b < f0.len() && f0[b] == edges[i].from.0;
                    assert(f0[b] == edges[i].from.0);
                }
            }
            assert forall|x: usize| next@.to_set().contains(x) implies visited@.contains(x) by {}
            assert forall|k: int| 0 <= k <= d implies id_numbers(out@).take(#[trigger] bounds[k])
                =~= id_numbers(o0).take(bounds[k]) by {
                assert forall|i: int| 0 <= i < bounds[k] implies out@[i] == o0[i] by {
                    assert(out@.take(o0.len() as int)[i] == o0[i]);
                }
            }
            assert(id_numbers(out@).take(out@.len() as int) =~= id_numbers(out@));
            assert(bfs_layers(nodes, edges, root, (d + 1) as nat) == scan_frontier(
                nodes,
                edges,
                f0,
                f0.len(),
                init0,
            ));
            bounds = bounds.push(out@.len() as int);
        }
        frontier = next;
        d = d + 1;
        if frontier.len() == 0 {
            proof {
                let r = reach_live(nodes, edges, root.0, d as nat);
                assert forall|v: usize| step_live(nodes, edges, r).contains(v) implies r.contains(v) by {
                    let i = choose|i: int|
                        0 <= i < edges.len() && #[trigger] r.contains(edges[i].from.0)
                            && nodes.contains_key(edges[i].to.0) && nodes[edges[i].to.0].id.0 == v;
                    assert(!frontier@.contains(edges[i].from.0));
                }
                lemma_reach_live_stable(nodes, edges, root.0, d as nat, depth as nat);
                lemma_bfs_settled(nodes, edges, root, d as nat, depth as nat);
                assert forall|k: nat|
                    #![trigger reach_live(nodes, edges, root.0, k)]
                    k <= depth implies exists|p: int|
                    #![trigger id_numbers(out@).take(p)]
                    0 <= p <= out@.len() && id_numbers(out@).take(p).to_set() == reach_live(
                        nodes,
                        edges,
                        root.0,
                        k,
                    ) by {
                    if k <= d {
                        assert(0 <= bounds[k as int] <= out@.len());
                    } else {
                        lemma_reach_live_stable(nodes, edges, root.0, d as nat, k);
                        assert(0 <= bounds[d as int] <= out@.len());
                    }
                }
            }
            return out;
        }
    }
    proof {
        assert forall|k: nat|
                    #![trigger reach_live(nodes, edges, root.0, k)]
                    k <= depth implies exists|p: int|
            #![trigger id_numbers(out@).take(p)]
            0 <= p <= out@.len() && id_numbers(out@).take(p).to_set() == reach_live(
                nodes,
                edges,
                root.0,
                k,
            ) by {
            assert(0 <= bounds[k as int] <= out@.len());
        }
    }
    out
}

} // verus!
