//! The web itself: nodes keyed by id, a list of directed edges, and an
//! index from token positions to the node that last claimed them.

use std::collections::HashMap;
use vstd::prelude::*;

use crate::types::{EdgeKind, KvWebCompressor, TokenId, WebNodeId};

verus! {

/// A node over a span of tokens. `data` carries the node's numeric
/// attributes (score, polygon geometry, branch stability/drift and their
/// compressed forms), which this crate never inspects.
#[derive(Debug)]
pub struct WebNode<N> {
    pub id: WebNodeId,
    pub tokens: Vec<TokenId>,
    pub label: Option<String>,
    pub branch_id: Option<u32>,
    pub branch_kind: Option<u8>,
    pub data: N,
}

/// A directed edge between two nodes; `weight` is opaque to this crate.
#[derive(Debug)]
pub struct WebEdge<W> {
    pub from: WebNodeId,
    pub to: WebNodeId,
    pub weight: W,
    pub kind: EdgeKind,
}

/// The web: nodes keyed by the number inside their id, edges in insertion
/// order, and the token index (token position -> node id number).
#[derive(Debug)]
pub struct KvWeb<N, W> {
    pub nodes: HashMap<usize, WebNode<N>>,
    pub edges: Vec<WebEdge<W>>,
    pub node_index_by_token: HashMap<usize, usize>,
    pub next_node_id: usize,
    pub compressor: Option<KvWebCompressor>,
}

/// The set of token positions named by a token list.
pub open spec fn token_positions(tokens: Seq<TokenId>) -> Set<usize> {
    Set::new(|t: usize| exists|i: int| 0 <= i < tokens.len() && tokens[i].0 == t)
}

/// The token index after every token of `tokens` has been pointed at `id`.
pub open spec fn index_with_tokens(
    index: Map<usize, usize>,
    tokens: Seq<TokenId>,
    id: usize,
) -> Map<usize, usize> {
    index.union_prefer_right(Map::new(|t: usize| token_positions(tokens).contains(t), |t: usize| id))
}

/// Pointing one more token at `id` extends the indexed prefix by one.
pub proof fn lemma_index_with_tokens_step(
    index: Map<usize, usize>,
    tokens: Seq<TokenId>,
    i: int,
    id: usize,
)
    requires
        0 <= i < tokens.len(),
    ensures
        index_with_tokens(index, tokens.take(i), id).insert(tokens[i].0, id) == index_with_tokens(
            index,
            tokens.take(i + 1),
            id,
        ),
{
    let s = tokens.take(i);
    let s1 = tokens.take(i + 1);
    let t = tokens[i];
    assert(token_positions(s1) =~= token_positions(s).insert(t.0)) by {
        assert forall|x: usize| token_positions(s1).contains(x) implies token_positions(s).insert(
            t.0,
        ).contains(x) by {
            let j = choose|j: int| 0 <= j < s1.len() && s1[j].0 == x;
            if j < i {
                assert(s[j] == s1[j]);
            }
        }
        assert forall|x: usize| token_positions(s).insert(t.0).contains(x) implies token_positions(
            s1,
        ).contains(x) by {
            if x == t.0 {
                assert(s1[i] == t);
            } else {
                let j = choose|j: int| 0 <= j < s.len() && s[j].0 == x;
                assert(s1[j] == s[j]);
            }
        }
    }
    assert(index_with_tokens(index, s, id).insert(t.0, id) =~= index_with_tokens(index, s1, id));
}

/// After the tokens of a list are pointed at `id`, looking any of them up
/// in the index gives `id`.
pub proof fn lemma_indexed_tokens_point_to(
    index: Map<usize, usize>,
    tokens: Seq<TokenId>,
    id: usize,
    i: int,
)
    requires
        0 <= i < tokens.len(),
    ensures
        index_with_tokens(index, tokens, id).contains_key(tokens[i].0),
        index_with_tokens(index, tokens, id)[tokens[i].0] == id,
{
    assert(token_positions(tokens).contains(tokens[i].0));
}

impl<N, W> Default for KvWeb<N, W> {
    /// The same empty web as `new`.
    fn default() -> (web: Self)
        ensures
            web.nodes@ == Map::<usize, WebNode<N>>::empty(),
            web.edges@ == Seq::<WebEdge<W>>::empty(),
            web.node_index_by_token@ == Map::<usize, usize>::empty(),
            web.next_node_id == 0,
            web.compressor == Some(KvWebCompressor),
            web.wf(),
    {
        KvWeb::new()
    }
}

/// Node ids are never handed out twice: in a well-formed web no node is
/// stored under an id at or above the next one to be handed out, so the id
/// that `create_node` or `merge_nodes` returns is free, and stays distinct
/// from every id returned after it.
pub proof fn lemma_unissued_ids_free<N, W>(web: &KvWeb<N, W>, k: usize)
    requires
        web.wf(),
        web.next_id() <= k,
    ensures
        !web.nodes@.contains_key(k),
{
}

/// Whether an edge leaves `node`.
pub open spec fn leaves<W>(node: WebNodeId) -> spec_fn(WebEdge<W>) -> bool {
    |e: WebEdge<W>| e.from == node
}

/// Whether an edge is a semantic one.
pub open spec fn is_semantic<W>() -> spec_fn(WebEdge<W>) -> bool {
    |e: WebEdge<W>| e.kind is Semantic
}

impl<N, W> KvWeb<N, W> {
    /// The id number the next created node receives.
    pub open spec fn next_id(&self) -> usize {
        self.next_node_id
    }

    /// Every node is stored under the number of its own id, and every stored
    /// id lies below the id the next created node receives, so that ids
    /// handed out later are fresh.
    pub open spec fn wf(&self) -> bool {
        forall|k: usize| #[trigger]
            self.nodes@.contains_key(k) ==> self.nodes@[k].id.0 == k && k < self.next_node_id
    }

    /// The node stored under `k` has exactly the given fields.
    pub open spec fn node_is(
        &self,
        k: usize,
        id: WebNodeId,
        tokens: Seq<TokenId>,
        label: Option<String>,
        branch_id: Option<u32>,
        branch_kind: Option<u8>,
        data: N,
    ) -> bool {
        &&& self.nodes@.contains_key(k)
        &&& self.nodes@[k].id == id
        &&& self.nodes@[k].tokens@ == tokens
        &&& self.nodes@[k].label == label
        &&& self.nodes@[k].branch_id == branch_id
        &&& self.nodes@[k].branch_kind == branch_kind
        &&& self.nodes@[k].data == data
    }

    /// An empty web with a compressor attached.
    pub fn new() -> (web: Self)
        ensures
            web.nodes@ == Map::<usize, WebNode<N>>::empty(),
            web.edges@ == Seq::<WebEdge<W>>::empty(),
            web.node_index_by_token@ == Map::<usize, usize>::empty(),
            web.next_id() == 0,
            web.compressor == Some(KvWebCompressor),
            web.wf(),
    {
        KvWeb {
            nodes: HashMap::new(),
            edges: Vec::new(),
            node_index_by_token: HashMap::new(),
            next_node_id: 0,
            compressor: Some(KvWebCompressor::new()),
        }
    }

    /// Creates a node over `tokens` with a fresh id, points every one of its
    /// tokens at it in the token index, and returns the id.
    pub fn create_node(&mut self, tokens: Vec<TokenId>, label: Option<String>, data: N) -> (id:
        WebNodeId)
        requires
            old(self).next_id() < usize::MAX,
        ensures
            id.0 == old(self).next_id(),
            old(self).wf() ==> !old(self).nodes@.contains_key(id.0),
            final(self).next_id() == old(self).next_id() + 1,
            final(self).nodes@.dom() == old(self).nodes@.dom().insert(id.0),
            final(self).node_is(id.0, id, tokens@, label, None, None, data),
            forall|k: usize|
                k != id.0 && #[trigger] old(self).nodes@.contains_key(k) ==> final(self).nodes@[k]
                    == old(self).nodes@[k],
            final(self).edges@ == old(self).edges@,
            final(self).node_index_by_token@ == index_with_tokens(
                old(self).node_index_by_token@,
                tokens@,
                id.0,
            ),
            final(self).compressor == old(self).compressor,
            old(self).wf() ==> final(self).wf(),
    {
        let id = WebNodeId(self.next_node_id);
        self.next_node_id = self.next_node_id + 1;

        let ghost index0 = self.node_index_by_token@;
        let ghost nodes0 = self.nodes@;
        let ghost edges0 = self.edges@;
        let ghost comp0 = self.compressor;
        let mut i: usize = 0;
        while i < tokens.len()
            invariant
                0 <= i <= tokens.len(),
                self.nodes@ == nodes0,
                self.edges@ == edges0,
                self.compressor == comp0,
                self.next_node_id == id.0 + 1,
                self.node_index_by_token@ == index_with_tokens(index0, tokens@.take(i as int), id.0),
            decreases tokens.len() - i,
        {
            let t = tokens[i];
            self.node_index_by_token.insert(t.0, id.0);
            proof {
                lemma_index_with_tokens_step(index0, tokens@, i as int, id.0);
            }
            i = i + 1;
        }
        proof {
            assert(tokens@.take(tokens.len() as int) =~= tokens@);
        }

        let node = WebNode {
            id,
            tokens,
            label,
            branch_id: None,
            branch_kind: None,
            data,
        };
        self.nodes.insert(id.0, node);
        id
    }

    /// Appends a directed edge.
    pub fn add_edge(&mut self, from: WebNodeId, to: WebNodeId, weight: W, kind: EdgeKind)
        ensures
            final(self).edges@ == old(self).edges@.push(WebEdge { from, to, weight, kind }),
            final(self).nodes@ == old(self).nodes@,
            final(self).node_index_by_token@ == old(self).node_index_by_token@,
            final(self).next_id() == old(self).next_id(),
            final(self).compressor == old(self).compressor,
    {
        self.edges.push(WebEdge { from, to, weight, kind });
    }

    /// The number of edges that leave `node` (its connectivity).
    pub fn out_degree(&self, node: WebNodeId) -> (n: usize)
        ensures
            n == self.edges@.filter(leaves(node)).len(),
    {
        let mut n: usize = 0;
        let mut i: usize = 0;
        while i < self.edges.len()
            invariant
                i <= self.edges@.len(),
                n == self.edges@.take(i as int).filter(leaves(node)).len(),
                n <= i,
            decreases self.edges.len() - i,
        {
            proof {
                assert(self.edges@.take(i + 1) =~= self.edges@.take(i as int).push(self.edges@[i as int]));
                self.edges@.take(i as int).lemma_filter_push(self.edges@[i as int], leaves(node));
            }
            if self.edges[i].from == node {
                n = n + 1;
            }
            i = i + 1;
        }
        proof {
            assert(self.edges@.take(self.edges@.len() as int) =~= self.edges@);
        }
        n
    }

    /// The number of semantic edges.
    pub fn semantic_edge_count(&self) -> (n: usize)
        ensures
            n == self.edges@.filter(is_semantic()).len(),
    {
        let mut n: usize = 0;
        let mut i: usize = 0;
        while i < self.edges.len()
            invariant
                i <= self.edges@.len(),
                n == self.edges@.take(i as int).filter(is_semantic()).len(),
                n <= i,
            decreases self.edges.len() - i,
        {
            proof {
                assert(self.edges@.take(i + 1) =~= self.edges@.take(i as int).push(self.edges@[i as int]));
                self.edges@.take(i as int).lemma_filter_push(self.edges@[i as int], is_semantic());
            }
            if let EdgeKind::Semantic = self.edges[i].kind {
                n = n + 1;
            }
            i = i + 1;
        }
        proof {
            assert(self.edges@.take(self.edges@.len() as int) =~= self.edges@);
        }
        n
    }

    /// The node that the token index names for `token`, if that node exists.
    pub fn node_for_token(&self, token: TokenId) -> (res: Option<&WebNode<N>>)
        ensures
            match res {
                Some(n) => {
                    &&& self.node_index_by_token@.contains_key(token.0)
                    &&& self.nodes@.contains_key(self.node_index_by_token@[token.0])
                    &&& *n == self.nodes@[self.node_index_by_token@[token.0]]
                },
                None => !self.node_index_by_token@.contains_key(token.0) || !self.nodes@.contains_key(
                    self.node_index_by_token@[token.0],
                ),
            },
    {
        match self.node_index_by_token.get(&token.0) {
            Some(id) => self.nodes.get(id),
            None => None,
        }
    }
}

} // verus!
