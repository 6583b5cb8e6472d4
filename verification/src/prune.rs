//! Structural maintenance of a web: removing nodes, rebuilding the token
//! index, merging nodes and linking recently used nodes.

use std::collections::HashMap;
use vstd::prelude::*;
use vstd::std_specs::hash::spec_keys_iter;
use vstd::std_specs::iter::IteratorSpec;

use crate::types::{EdgeKind, TokenId, WebNodeId};
use crate::region::{id_numbers, region_tokens, token_numbers};
use crate::web::{index_with_tokens, KvWeb, WebEdge, WebNode};

verus! {

/// The keys of a map, each once.
fn key_list<V>(m: &HashMap<usize, V>) -> (keys: Vec<usize>)
    ensures
        keys@.no_duplicates(),
        keys@.to_set() == m@.dom(),
{
    let mut keys: Vec<usize> = Vec::new();
    for k in it: m.keys()
        invariant
            keys@ == it.seq().take(it.index() as int).map_values(|x: &usize| *x),
            it.seq() == spec_keys_iter(m).remaining(),
    {
        keys.push(*k);
    }
    proof {
        let r = spec_keys_iter(m).remaining();
        assert(keys@ =~= r.unref());
    }
    keys
}

/// Whether `x` is the number inside one of `ids`.
fn contains_number(ids: &Vec<WebNodeId>, x: usize) -> (b: bool)
    ensures
        b == id_numbers(ids@).contains(x),
{
    let mut i: usize = 0;
    while i < ids.len()
        invariant
            0 <= i <= ids@.len(),
            forall|j: int| 0 <= j < i ==> ids@[j].0 != x,
        decreases ids.len() - i,
    {
        if ids[i].0 == x {
            proof {
                assert(id_numbers(ids@)[i as int] == x);
            }
            return true;
        }
        i = i + 1;
    }
    proof {
        assert forall|j: int| 0 <= j < id_numbers(ids@).len() implies id_numbers(ids@)[j] != x by {
            assert(ids@[j].0 != x);
        }
    }
    false
}

/// The token positions owned by some node of `nodes`.
pub open spec fn owned_tokens<N>(nodes: Map<usize, WebNode<N>>) -> Set<usize> {
    region_tokens(nodes, nodes.dom())
}

/// The token index covers exactly the tokens owned by the nodes, and names
/// for each of them a node that owns it.
pub open spec fn index_covers<N>(nodes: Map<usize, WebNode<N>>, index: Map<usize, usize>) -> bool {
    &&& index.dom() == owned_tokens(nodes)
    &&& forall|t: usize|
        #[trigger] index.contains_key(t) ==> nodes.contains_key(index[t]) && token_numbers(
            nodes[index[t]].tokens@,
        ).contains(t)
}

/// The edges whose source and target both lie in `ends`, in their order.
pub open spec fn edges_within<W>(edges: Seq<WebEdge<W>>, ends: Set<usize>) -> Seq<WebEdge<W>> {
    edges.filter(|e: WebEdge<W>| ends.contains(e.from.0) && ends.contains(e.to.0))
}

/// The edges whose source and target both lie outside `removed`, in their
/// order.
pub open spec fn edges_clear_of<W>(edges: Seq<WebEdge<W>>, removed: Set<usize>) -> Seq<WebEdge<W>> {
    edges.filter(|e: WebEdge<W>| !removed.contains(e.from.0) && !removed.contains(e.to.0))
}

/// Every edge leaves and enters a node of `nodes` (no edge dangles).
pub open spec fn edges_anchored<N, W>(nodes: Map<usize, WebNode<N>>, edges: Seq<WebEdge<W>>) -> bool {
    forall|i: int|
        0 <= i < edges.len() ==> nodes.contains_key(#[trigger] edges[i].from.0) && nodes.contains_key(
            edges[i].to.0,
        )
}

/// The edges whose source is neither `a` nor `b`, in their order.
pub open spec fn edges_not_from<W>(edges: Seq<WebEdge<W>>, a: WebNodeId, b: WebNodeId) -> Seq<
    WebEdge<W>,
> {
    edges.filter(|e: WebEdge<W>| e.from != a && e.from != b)
}

/// The tokens of the node stored under `k`, or none if there is no such node.
pub open spec fn tokens_of<N>(nodes: Map<usize, WebNode<N>>, k: usize) -> Seq<TokenId> {
    if nodes.contains_key(k) {
        nodes[k].tokens@
    } else {
        Seq::empty()
    }
}

/// The label a merge of `a` into `b` carries: `a`'s label if `a` exists
/// and has one, otherwise `b`'s label if `b` exists.
pub open spec fn merged_label<N>(nodes: Map<usize, WebNode<N>>, a: usize, b: usize) -> Option<
    String,
> {
    if nodes.contains_key(a) && nodes[a].label.is_some() {
        nodes[a].label
    } else if nodes.contains_key(b) {
        nodes[b].label
    } else {
        None
    }
}

/// With a covering index, every token owned by some node is indexed, and
/// the node it is indexed to exists and owns it.
pub proof fn lemma_covered_token_lookup<N>(
    nodes: Map<usize, WebNode<N>>,
    index: Map<usize, usize>,
    t: usize,
)
    requires
        index_covers(nodes, index),
        owned_tokens(nodes).contains(t),
    ensures
        index.contains_key(t),
        nodes.contains_key(index[t]),
        token_numbers(nodes[index[t]].tokens@).contains(t),
{
}

fn clone_label(label: &Option<String>) -> (res: Option<String>)
    ensures
        res == *label,
{
    match label {
        Some(s) => Some(s.clone()),
        None => None,
    }
}

impl<N, W> KvWeb<N, W> {
    /// Rebuilds the token index from scratch over the current nodes.
    fn rebuild_token_index(&mut self)
        ensures
            final(self).nodes@ == old(self).nodes@,
            final(self).edges@ == old(self).edges@,
            final(self).next_id() == old(self).next_id(),
            final(self).compressor == old(self).compressor,
            index_covers(final(self).nodes@, final(self).node_index_by_token@),
    {
        self.node_index_by_token.clear();
        let keys = key_list(&self.nodes);
        let ghost nodes0 = self.nodes@;
        let ghost edges0 = self.edges@;
        let ghost next0 = self.next_node_id;
        let ghost comp0 = self.compressor;
        proof {
            assert(keys@.take(0).to_set() =~= Set::<usize>::empty());
            assert(self.node_index_by_token@.dom() =~= region_tokens(nodes0, Set::<usize>::empty()));
        }
        let mut i: usize = 0;
        while i < keys.len()
            invariant
                0 <= i <= keys@.len(),
                self.nodes@ == nodes0,
                self.edges@ == edges0,
                self.next_node_id == next0,
                self.compressor == comp0,
                keys@.to_set() == nodes0.dom(),
                self.node_index_by_token@.dom() == region_tokens(nodes0, keys@.take(i as int).to_set()),
                forall|t: usize|
                    #[trigger] self.node_index_by_token@.contains_key(t) ==> nodes0.contains_key(
                        self.node_index_by_token@[t],
                    ) && token_numbers(nodes0[self.node_index_by_token@[t]].tokens@).contains(t),
            decreases keys.len() - i,
        {
            let k = keys[i];
            let ghost before_set = keys@.take(i as int).to_set();
            let ghost after_set = keys@.take(i + 1).to_set();
            proof {
                assert(keys@.take(i + 1) =~= keys@.take(i as int).push(k));
                keys@.take(i as int).lemma_push_to_set_commute(k);
                assert(after_set =~= before_set.insert(k));
                assert(keys@.contains(k));
                assert(nodes0.contains_key(k));
            }
            match self.nodes.get(&k) {
                Some(node) => {
                    let ghost d0 = self.node_index_by_token@.dom();
                    let mut j: usize = 0;
                    while j < node.tokens.len()
                        invariant
                            0 <= j <= node.tokens@.len(),
                            self.nodes@ == nodes0,
                            self.edges@ == edges0,
                            self.next_node_id == next0,
                            self.compressor == comp0,
                            nodes0.contains_key(k),
                            *node == nodes0[k],
                            self.node_index_by_token@.dom() == d0.union(
                                token_numbers(node.tokens@.take(j as int)).to_set(),
                            ),
                            forall|t: usize|
                                #[trigger] self.node_index_by_token@.contains_key(t)
                                    ==> nodes0.contains_key(self.node_index_by_token@[t])
                                    && token_numbers(
                                    nodes0[self.node_index_by_token@[t]].tokens@,
                                ).contains(t),
                        decreases node.tokens.len() - j,
                    {
                        let t = node.tokens[j];
                        self.node_index_by_token.insert(t.0, k);
                        proof {
                            assert(token_numbers(node.tokens@.take(j + 1)) =~= token_numbers(
                                node.tokens@.take(j as int),
                            ).push(t.0));
                            token_numbers(node.tokens@.take(j as int)).lemma_push_to_set_commute(t.0);
                            assert(token_numbers(node.tokens@)[j as int] == t.0);
                            assert(self.node_index_by_token@.dom() =~= d0.union(
                                token_numbers(node.tokens@.take(j + 1)).to_set(),
                            ));
                        }
                        j = j + 1;
                    }
                    proof {
                        assert(node.tokens@.take(node.tokens@.len() as int) =~= node.tokens@);
                        assert forall|t: usize|
                            region_tokens(nodes0, after_set).contains(t) implies self.node_index_by_token@.contains_key(
                            t,
                        ) by {
                            let v = choose|v: usize|
                                #![trigger after_set.contains(v), nodes0.contains_key(v)]
                                after_set.contains(v) && nodes0.contains_key(v) && token_numbers(
                                    nodes0[v].tokens@,
                                ).contains(t);
                            if v != k {
                                assert(before_set.contains(v));
                                assert(region_tokens(nodes0, before_set).contains(t));
                            }
                        }
                        assert forall|t: usize|
                            self.node_index_by_token@.contains_key(t) implies region_tokens(
                            nodes0,
                            after_set,
                        ).contains(t) by {
                            if d0.contains(t) {
                                let v = choose|v: usize|
                                    #![trigger before_set.contains(v), nodes0.contains_key(v)]
                                    before_set.contains(v) && nodes0.contains_key(v)
                                        && token_numbers(nodes0[v].tokens@).contains(t);
                                assert(after_set.contains(v));
                            } else {
                                assert(after_set.contains(k));
                            }
                        }
                        assert(self.node_index_by_token@.dom() =~= region_tokens(nodes0, after_set));
                    }
                },
                None => {},
            }
            i = i + 1;
        }
        proof {
            assert(keys@.take(keys@.len() as int) =~= keys@);
        }
    }

    /// Keeps only the nodes whose ids are listed in `keep`, drops every edge
    /// whose source or target is then not a node, and rebuilds the token
    /// index; no edge is left dangling.
    pub fn retain_nodes(&mut self, keep: &Vec<WebNodeId>)
        ensures
            final(self).nodes@ == old(self).nodes@.restrict(id_numbers(keep@).to_set()),
            final(self).edges@ == edges_within(old(self).edges@, final(self).nodes@.dom()),
            edges_anchored(final(self).nodes@, final(self).edges@),
            index_covers(final(self).nodes@, final(self).node_index_by_token@),
            final(self).next_id() == old(self).next_id(),
            final(self).compressor == old(self).compressor,
            old(self).wf() ==> final(self).wf(),
    {
        let ghost kept = id_numbers(keep@).to_set();
        let ghost nodes0 = self.nodes@;
        let ghost edges0 = self.edges@;
        let ghost next0 = self.next_node_id;
        let ghost comp0 = self.compressor;
        let keys = key_list(&self.nodes);
        let mut i: usize = 0;
        while i < keys.len()
            invariant
                0 <= i <= keys@.len(),
                kept == id_numbers(keep@).to_set(),
                keys@.no_duplicates(),
                keys@.to_set() == nodes0.dom(),
                self.edges@ == edges0,
                self.next_node_id == next0,
                self.compressor == comp0,
                self.nodes@.dom().subset_of(nodes0.dom()),
                forall|k: usize| #[trigger] self.nodes@.contains_key(k) ==> self.nodes@[k] == nodes0[k],
                forall|j: int|
                    0 <= j < keys@.len() ==> (#[trigger] self.nodes@.contains_key(keys@[j]) <==> (j
                        >= i || kept.contains(keys@[j]))),
            decreases keys.len() - i,
        {
            let k = keys[i];
            let ghost before = self.nodes@;
            let is_kept = contains_number(keep, k);
            if !is_kept {
                self.nodes.remove(&k);
            }
            proof {
                assert(is_kept == kept.contains(k));
                assert forall|j: int|
                    0 <= j < keys@.len() implies (#[trigger] self.nodes@.contains_key(keys@[j])
                    <==> (j >= i + 1 || kept.contains(keys@[j]))) by {
                    if j != i {
                        assert(keys@[j] != k);
                        assert(self.nodes@.contains_key(keys@[j]) == before.contains_key(keys@[j]));
                    }
                }
            }
            i = i + 1;
        }
        proof {
            assert forall|k: usize| self.nodes@.contains_key(k) <==> nodes0.restrict(kept).contains_key(k) by {
                if nodes0.contains_key(k) {
                    assert(keys@.to_set().contains(k));
                    let j = choose|j: int| 0 <= j < keys@.len() && keys@[j] == k;
                    assert(self.nodes@.contains_key(keys@[j]) <==> kept.contains(keys@[j]));
                }
            }
            assert(self.nodes@ =~= nodes0.restrict(kept));
        }

        let mut old_edges: Vec<WebEdge<W>> = Vec::new();
        std::mem::swap(&mut old_edges, &mut self.edges);
        let ghost oe = old_edges@;
        let ghost dom = self.nodes@.dom();
        for e in it: old_edges.into_iter()
            invariant
                it.seq() == oe,
                self.nodes@.dom() == dom,
                self.nodes@ == nodes0.restrict(kept),
                self.next_node_id == next0,
                self.compressor == comp0,
                self.edges@ == edges_within(oe.take(it.index() as int), dom),
        {
            proof {
                assert(oe.take(it.index() + 1) =~= oe.take(it.index() as int).push(e));
                oe.take(it.index() as int).lemma_filter_push(
                    e,
                    |e: WebEdge<W>| dom.contains(e.from.0) && dom.contains(e.to.0),
                );
            }
            if self.nodes.contains_key(&e.from.0) && self.nodes.contains_key(&e.to.0) {
                self.edges.push(e);
            }
        }
        proof {
            assert(oe.take(oe.len() as int) =~= oe);
            let f = edges_within(oe, dom);
            assert forall|i: int| 0 <= i < f.len() implies dom.contains(#[trigger] f[i].from.0)
                && dom.contains(f[i].to.0) by {
                oe.lemma_filter_pred(|e: WebEdge<W>| dom.contains(e.from.0) && dom.contains(e.to.0), i);
            }
        }
        self.rebuild_token_index();
    }
}

/// The positional edges that link each listed node to the next one.
pub open spec fn recency_links<W>(recent: Seq<WebNodeId>, weight: W) -> Seq<WebEdge<W>> {
    Seq::new(
        if recent.len() > 0 {
            (recent.len() - 1) as nat
        } else {
            0
        },
        |i: int| WebEdge { from: recent[i], to: recent[i + 1], weight, kind: EdgeKind::Positional },
    )
}

impl<N, W> KvWeb<N, W> {
    /// Removes the nodes whose ids are listed in `removed`, drops every edge
    /// whose source or target is listed there, and rebuilds the token index;
    /// a web without dangling edges keeps none.
    pub fn remove_nodes(&mut self, removed: &Vec<WebNodeId>)
        ensures
            final(self).nodes@ == old(self).nodes@.remove_keys(id_numbers(removed@).to_set()),
            final(self).edges@ == edges_clear_of(old(self).edges@, id_numbers(removed@).to_set()),
            edges_anchored(old(self).nodes@, old(self).edges@) ==> edges_anchored(
                final(self).nodes@,
                final(self).edges@,
            ),
            index_covers(final(self).nodes@, final(self).node_index_by_token@),
            final(self).next_id() == old(self).next_id(),
            final(self).compressor == old(self).compressor,
            old(self).wf() ==> final(self).wf(),
    {
        let ghost gone = id_numbers(removed@).to_set();
        let ghost nodes0 = self.nodes@;
        let ghost next0 = self.next_node_id;
        let ghost comp0 = self.compressor;
        let mut i: usize = 0;
        while i < removed.len()
            invariant
                0 <= i <= removed@.len(),
                self.edges@ == old(self).edges@,
                self.next_node_id == next0,
                self.compressor == comp0,
                self.nodes@ == nodes0.remove_keys(id_numbers(removed@.take(i as int)).to_set()),
            decreases removed.len() - i,
        {
            let k = removed[i].0;
            self.nodes.remove(&k);
            proof {
                assert(id_numbers(removed@.take(i + 1)) =~= id_numbers(removed@.take(i as int)).push(k));
                id_numbers(removed@.take(i as int)).lemma_push_to_set_commute(k);
                assert(self.nodes@ =~= nodes0.remove_keys(id_numbers(removed@.take(i + 1)).to_set()));
            }
            i = i + 1;
        }
        proof {
            assert(removed@.take(removed@.len() as int) =~= removed@);
        }

        let mut old_edges: Vec<WebEdge<W>> = Vec::new();
        std::mem::swap(&mut old_edges, &mut self.edges);
        let ghost oe = old_edges@;
        for e in it: old_edges.into_iter()
            invariant
                it.seq() == oe,
                gone == id_numbers(removed@).to_set(),
                self.nodes@ == nodes0.remove_keys(gone),
                self.next_node_id == next0,
                self.compressor == comp0,
                self.edges@ == edges_clear_of(oe.take(it.index() as int), gone),
        {
            proof {
                assert(oe.take(it.index() + 1) =~= oe.take(it.index() as int).push(e));
                oe.take(it.index() as int).lemma_filter_push(
                    e,
                    |e: WebEdge<W>| !gone.contains(e.from.0) && !gone.contains(e.to.0),
                );
            }
            if !contains_number(removed, e.from.0) && !contains_number(removed, e.to.0) {
                self.edges.push(e);
            }
        }
        proof {
            assert(oe.take(oe.len() as int) =~= oe);
            if edges_anchored(nodes0, oe) {
                let f = edges_clear_of(oe, gone);
                assert forall|i: int| 0 <= i < f.len() implies self.nodes@.contains_key(
                    #[trigger] f[i].from.0,
                ) && self.nodes@.contains_key(f[i].to.0) by {
                    oe.lemma_filter_pred(
                        |e: WebEdge<W>| !gone.contains(e.from.0) && !gone.contains(e.to.0),
                        i,
                    );
                    oe.lemma_filter_contains_rev(
                        |e: WebEdge<W>| !gone.contains(e.from.0) && !gone.contains(e.to.0),
                        f[i],
                    );
                    assert(f.contains(f[i]));
                    let j = choose|j: int| 0 <= j < oe.len() && oe[j] == f[i];
                    assert(nodes0.contains_key(oe[j].from.0));
                }
            }
        }
        self.rebuild_token_index();
    }

    /// Drops every token-index entry that names a node which does not exist.
    pub fn cleanup_orphan_tokens(&mut self)
        ensures
            final(self).node_index_by_token@ == old(self).node_index_by_token@.restrict(
                Set::new(|t: usize| old(self).nodes@.contains_key(old(self).node_index_by_token@[t])),
            ),
            final(self).nodes@ == old(self).nodes@,
            final(self).edges@ == old(self).edges@,
            final(self).next_id() == old(self).next_id(),
            final(self).compressor == old(self).compressor,
    {
        let ghost index0 = self.node_index_by_token@;
        let ghost live = Set::new(|t: usize| self.nodes@.contains_key(index0[t]));
        let keys = key_list(&self.node_index_by_token);
        let ghost nodes0 = self.nodes@;
        let ghost edges0 = self.edges@;
        let ghost next0 = self.next_node_id;
        let ghost comp0 = self.compressor;
        let mut i: usize = 0;
        while i < keys.len()
            invariant
                0 <= i <= keys@.len(),
                keys@.no_duplicates(),
                keys@.to_set() == index0.dom(),
                live == Set::new(|t: usize| nodes0.contains_key(index0[t])),
                self.nodes@ == nodes0,
                self.edges@ == edges0,
                self.next_node_id == next0,
                self.compressor == comp0,
                self.node_index_by_token@.dom().subset_of(index0.dom()),
                forall|t: usize|
                    #[trigger] self.node_index_by_token@.contains_key(t)
                        ==> self.node_index_by_token@[t] == index0[t],
                forall|j: int|
                    0 <= j < keys@.len() ==> (#[trigger] self.node_index_by_token@.contains_key(
                        keys@[j],
                    ) <==> (j >= i || live.contains(keys@[j]))),
            decreases keys.len() - i,
        {
            let t = keys[i];
            let ghost before = self.node_index_by_token@;
            proof {
                assert(keys@.contains(t));
                assert(before.contains_key(keys@[i as int]));
            }
            let n = *self.node_index_by_token.get(&t).unwrap();
            if !self.nodes.contains_key(&n) {
                self.node_index_by_token.remove(&t);
            }
            proof {
                assert forall|j: int|
                    0 <= j < keys@.len() implies (#[trigger] self.node_index_by_token@.contains_key(
                    keys@[j],
                ) <==> (j >= i + 1 || live.contains(keys@[j]))) by {
                    if j != i {
                        assert(keys@[j] != t);
                    }
                }
            }
            i = i + 1;
        }
        proof {
            assert forall|t: usize|
                self.node_index_by_token@.contains_key(t) <==> index0.restrict(live).contains_key(t) by {
                if index0.contains_key(t) {
                    assert(keys@.to_set().contains(t));
                    let j = choose|j: int| 0 <= j < keys@.len() && keys@[j] == t;
                    assert(self.node_index_by_token@.contains_key(keys@[j]) <==> live.contains(
                        keys@[j],
                    ));
                }
            }
            assert(self.node_index_by_token@ =~= index0.restrict(live));
        }
    }

    /// Merges nodes `a` and `b` into a node with a fresh id, the one the next
    /// created node would have received (the id counter moves on by one):
    /// its tokens are `a`'s followed by `b`'s, its label is `a`'s if it has one
    /// and `b`'s otherwise, it has no branch metadata, and it carries `data`.
    /// Both merged nodes are removed, the merged tokens are pointed at the new
    /// node, and the edges leaving `a` or `b` are dropped. Every other node
    /// stays as it was.
    pub fn merge_nodes(&mut self, a: WebNodeId, b: WebNodeId, data: N) -> (id: WebNodeId)
        requires
            old(self).next_id() < usize::MAX,
        ensures
            id.0 == old(self).next_id(),
            old(self).wf() ==> !old(self).nodes@.contains_key(id.0),
            final(self).next_id() == old(self).next_id() + 1,
            final(self).nodes@.dom() == old(self).nodes@.dom().remove(a.0).remove(b.0).insert(id.0),
            final(self).node_is(
                id.0,
                id,
                tokens_of(old(self).nodes@, a.0) + tokens_of(old(self).nodes@, b.0),
                merged_label(old(self).nodes@, a.0, b.0),
                None,
                None,
                data,
            ),
            forall|k: usize|
                k != id.0 && k != a.0 && k != b.0 && #[trigger] old(self).nodes@.contains_key(k)
                    ==> final(self).nodes@[k] == old(self).nodes@[k],
            old(self).wf() ==> forall|k: usize|
                k != a.0 && k != b.0 && #[trigger] old(self).nodes@.contains_key(k)
                    ==> final(self).nodes@.contains_key(k) && final(self).nodes@[k] == old(self).nodes@[k],
            final(self).node_index_by_token@ == index_with_tokens(
                old(self).node_index_by_token@,
                tokens_of(old(self).nodes@, a.0) + tokens_of(old(self).nodes@, b.0),
                id.0,
            ),
            final(self).edges@ == edges_not_from(old(self).edges@, a, b),
            final(self).compressor == old(self).compressor,
            old(self).wf() ==> final(self).wf(),
    {
        let ghost nodes0 = self.nodes@;
        let new_id = WebNodeId(self.next_node_id);
        let mut tokens: Vec<TokenId> = Vec::new();
        let mut label: Option<String> = None;

        match self.nodes.get(&a.0) {
            Some(na) => {
                let mut i: usize = 0;
                while i < na.tokens.len()
                    invariant
                        0 <= i <= na.tokens@.len(),
                        tokens@ == na.tokens@.take(i as int),
                    decreases na.tokens.len() - i,
                {
                    tokens.push(na.tokens[i]);
                    proof {
                        assert(na.tokens@.take(i + 1) =~= na.tokens@.take(i as int).push(
                            na.tokens@[i as int],
                        ));
                    }
                    i = i + 1;
                }
                proof {
                    assert(na.tokens@.take(na.tokens@.len() as int) =~= na.tokens@);
                }
                label = clone_label(&na.label);
            },
            None => {},
        }
        let ghost ta = tokens@;
        proof {
            assert(ta == tokens_of(nodes0, a.0));
        }
        match self.nodes.get(&b.0) {
            Some(nb) => {
                let mut i: usize = 0;
                while i < nb.tokens.len()
                    invariant
                        0 <= i <= nb.tokens@.len(),
                        tokens@ == ta + nb.tokens@.take(i as int),
                    decreases nb.tokens.len() - i,
                {
                    tokens.push(nb.tokens[i]);
                    proof {
                        assert(ta + nb.tokens@.take(i + 1) =~= (ta + nb.tokens@.take(i as int)).push(
                            nb.tokens@[i as int],
                        ));
                    }
                    i = i + 1;
                }
                proof {
                    assert(nb.tokens@.take(nb.tokens@.len() as int) =~= nb.tokens@);
                }
                if label.is_none() {
                    label = clone_label(&nb.label);
                }
            },
            None => {
                proof {
                    assert(ta + Seq::<TokenId>::empty() =~= ta);
                }
            },
        }
        let ghost merged_tokens = tokens@;
        proof {
            assert(merged_tokens == tokens_of(nodes0, a.0) + tokens_of(nodes0, b.0));
            assert(label == merged_label(nodes0, a.0, b.0));
        }

        self.nodes.remove(&a.0);
        self.nodes.remove(&b.0);

        let ghost index0 = self.node_index_by_token@;
        let ghost nodes1 = self.nodes@;
        let mut i: usize = 0;
        while i < tokens.len()
            invariant
                0 <= i <= tokens@.len(),
                tokens@ == merged_tokens,
                self.nodes@ == nodes1,
                self.edges@ == old(self).edges@,
                self.next_node_id == old(self).next_node_id,
                self.compressor == old(self).compressor,
                self.node_index_by_token@ == index_with_tokens(index0, tokens@.take(i as int), new_id.0),
            decreases tokens.len() - i,
        {
            let t = tokens[i];
            self.node_index_by_token.insert(t.0, new_id.0);
            proof {
                crate::web::lemma_index_with_tokens_step(index0, tokens@, i as int, new_id.0);
            }
            i = i + 1;
        }
        proof {
            assert(tokens@.take(tokens@.len() as int) =~= tokens@);
        }

        let merged = WebNode { id: new_id, tokens, label, branch_id: None, branch_kind: None, data };
        self.nodes.insert(new_id.0, merged);

        let mut old_edges: Vec<WebEdge<W>> = Vec::new();
        std::mem::swap(&mut old_edges, &mut self.edges);
        let ghost oe = old_edges@;
        let ghost nodes2 = self.nodes@;
        let ghost index2 = self.node_index_by_token@;
        for e in it: old_edges.into_iter()
            invariant
                it.seq() == oe,
                self.nodes@ == nodes2,
                self.node_index_by_token@ == index2,
                self.next_node_id == old(self).next_node_id,
                self.compressor == old(self).compressor,
                self.edges@ == edges_not_from(oe.take(it.index() as int), a, b),
        {
            proof {
                assert(oe.take(it.index() + 1) =~= oe.take(it.index() as int).push(e));
                oe.take(it.index() as int).lemma_filter_push(
                    e,
                    |e: WebEdge<W>| e.from != a && e.from != b,
                );
            }
            if e.from != a && e.from != b {
                self.edges.push(e);
            }
        }
        proof {
            assert(oe.take(oe.len() as int) =~= oe);
        }
        self.next_node_id = self.next_node_id + 1;
        new_id
    }

    /// Links each node of `recent` to the next one with a positional edge of
    /// the given weight.
    pub fn link_recent_nodes(&mut self, recent: &[WebNodeId], weight: W)
        where
            W: Copy,
        ensures
            final(self).edges@ == old(self).edges@ + recency_links(recent@, weight),
            final(self).nodes@ == old(self).nodes@,
            final(self).node_index_by_token@ == old(self).node_index_by_token@,
            final(self).next_id() == old(self).next_id(),
            final(self).compressor == old(self).compressor,
    {
        let ghost edges0 = self.edges@;
        if recent.len() < 2 {
            proof {
                assert(recency_links(recent@, weight) =~= Seq::<WebEdge<W>>::empty());
                assert(edges0 + Seq::<WebEdge<W>>::empty() =~= edges0);
            }
            return;
        }
        let mut i: usize = 0;
        while i + 1 < recent.len()
            invariant
                0 <= i <= recent@.len() - 1,
                recent@.len() >= 2,
                self.edges@ == edges0 + recency_links(recent@, weight).take(i as int),
                self.nodes@ == old(self).nodes@,
                self.node_index_by_token@ == old(self).node_index_by_token@,
                self.next_node_id == old(self).next_node_id,
                self.compressor == old(self).compressor,
            decreases recent.len() - i,
        {
            self.add_edge(recent[i], recent[i + 1], weight, EdgeKind::Positional);
            proof {
                let links = recency_links(recent@, weight);
                assert(links.take(i + 1) =~= links.take(i as int).push(links[i as int]));
                assert(edges0 + links.take(i + 1) =~= (edges0 + links.take(i as int)).push(
                    links[i as int],
                ));
            }
            i = i + 1;
        }
        proof {
            let links = recency_links(recent@, weight);
            assert(links.take(i as int) =~= links);
        }
    }
}

} // verus!
