//! Clustering of nodes by label: the eligible nodes are grouped by their
//! label (an unlabeled node forms the group named `unlabeled_<id>`), and each
//! group is cut into clusters of bounded size that receive consecutive ids.
//! Which nodes are eligible (their score reaches a threshold) is decided by
//! the caller; the geometry of each cluster is computed outside this crate.

use vstd::prelude::*;

use crate::types::{KvWebCompressor, WebNodeId};
use crate::web::{KvWeb, WebNode};
use crate::zoning::copy_range;

verus! {

broadcast use vstd::seq_lib::group_filter_ensures;

/// The character of a decimal digit.
pub open spec fn digit_char(d: nat) -> char {
    (48 + d) as char
}

/// The decimal digits of `n`, most significant first, without leading zeros.
pub open spec fn decimal(n: nat) -> Seq<char>
    decreases n,
{
    if n < 10 {
        seq![digit_char(n)]
    } else {
        decimal(n / 10).push(digit_char(n % 10))
    }
}

/// The group name of an unlabeled node: `unlabeled_` and its id in decimal.
pub open spec fn unlabeled_name(id: usize) -> Seq<char> {
    seq!['u', 'n', 'l', 'a', 'b', 'e', 'l', 'e', 'd', '_'] + decimal(id as nat)
}

/// Writes `n` with `format!` and `usize`'s `Display`, which gives its decimal
/// digits, most significant first, with no sign, padding or leading zeros
/// ("0" for zero); the contract states exactly that text.
#[verifier::external_body]
fn decimal_string(n: usize) -> (s: String)
    ensures
        s@ == decimal(n as nat),
{
    format!("{}", n)
}

/// The group name of an unlabeled node: `unlabeled_` followed by its id in
/// decimal.
fn unlabeled_key(id: usize) -> (name: String)
    ensures
        name@ == unlabeled_name(id),
{
    let prefix: String = "unlabeled_".to_owned();
    proof {
        reveal_strlit("unlabeled_");
    }
    let digits = decimal_string(id);
    let name = prefix.concat(digits.as_str());
    proof {
        assert(name@ =~= unlabeled_name(id));
    }
    name
}

/// The group name of the node stored under `k`: its label, or its
/// unlabeled name.
pub open spec fn group_key<N>(nodes: Map<usize, WebNode<N>>, k: usize) -> Seq<char> {
    match nodes[k].label {
        Some(s) => s@,
        None => unlabeled_name(k),
    }
}

/// Whether an id names a node of the web whose group name is `key`.
pub open spec fn has_key<N>(nodes: Map<usize, WebNode<N>>, key: Seq<char>) -> spec_fn(
    WebNodeId,
) -> bool {
    |id: WebNodeId| nodes.contains_key(id.0) && group_key(nodes, id.0) == key
}

/// `keys[g]`/`members[g]` group the eligible ids by group name: the names are
/// distinct, each group holds, in their order, exactly the eligible ids of
/// nodes with that name (at least one), and every eligible id of a node of
/// the web falls in a group.
pub open spec fn is_label_grouping<N>(
    nodes: Map<usize, WebNode<N>>,
    eligible: Seq<WebNodeId>,
    keys: Seq<Seq<char>>,
    members: Seq<Seq<WebNodeId>>,
) -> bool {
    &&& keys.len() == members.len()
    &&& forall|a: int, b: int| 0 <= a < b < keys.len() ==> keys[a] != keys[b]
    &&& forall|g: int|
        0 <= g < keys.len() ==> #[trigger] members[g] == eligible.filter(has_key(nodes, keys[g]))
            && members[g].len() > 0
    &&& forall|i: int|
        0 <= i < eligible.len() && nodes.contains_key(#[trigger] eligible[i].0) ==> exists|g: int|
            0 <= g < keys.len() && #[trigger] keys[g] == group_key(nodes, eligible[i].0)
}

/// Some eligible id of a node named `k1` comes before every eligible id of a
/// node named `k2`.
pub open spec fn appears_before<N>(
    nodes: Map<usize, WebNode<N>>,
    eligible: Seq<WebNodeId>,
    k1: Seq<char>,
    k2: Seq<char>,
) -> bool {
    exists|i: int|
        0 <= i < eligible.len() && #[trigger] has_key(nodes, k1)(eligible[i]) && forall|j: int|
            0 <= j <= i ==> !has_key(nodes, k2)(#[trigger] eligible[j])
}

/// The group names come in the order in which the eligible ids first name
/// them.
pub open spec fn in_first_appearance_order<N>(
    nodes: Map<usize, WebNode<N>>,
    eligible: Seq<WebNodeId>,
    keys: Seq<Seq<char>>,
) -> bool {
    forall|a: int, b: int|
        0 <= a < b < keys.len() ==> #[trigger] appears_before(nodes, eligible, keys[a], keys[b])
}

/// Appending an id keeps the order of the names already seen.
proof fn lemma_order_extend<N>(
    nodes: Map<usize, WebNode<N>>,
    prev: Seq<WebNodeId>,
    id: WebNodeId,
    keys: Seq<Seq<char>>,
)
    requires
        in_first_appearance_order(nodes, prev, keys),
    ensures
        in_first_appearance_order(nodes, prev.push(id), keys),
{
    let s = prev.push(id);
    assert forall|a: int, b: int| 0 <= a < b < keys.len() implies #[trigger] appears_before(
        nodes,
        s,
        keys[a],
        keys[b],
    ) by {
        assert(appears_before(nodes, prev, keys[a], keys[b]));
        let i = choose|i: int|
            0 <= i < prev.len() && #[trigger] has_key(nodes, keys[a])(prev[i]) && forall|j: int|
                0 <= j <= i ==> !has_key(nodes, keys[b])(#[trigger] prev[j]);
        assert(s[i] == prev[i]);
        assert forall|j: int| 0 <= j <= i implies !has_key(nodes, keys[b])(#[trigger] s[j]) by {
            assert(s[j] == prev[j]);
        }
        assert(has_key(nodes, keys[a])(s[i]));
    }
}

/// A name met for the first time goes after every name already seen.
proof fn lemma_order_new_key<N>(
    nodes: Map<usize, WebNode<N>>,
    prev: Seq<WebNodeId>,
    id: WebNodeId,
    keys: Seq<Seq<char>>,
    members: Seq<Seq<WebNodeId>>,
    key: Seq<char>,
)
    requires
        is_label_grouping(nodes, prev, keys, members),
        in_first_appearance_order(nodes, prev, keys),
        forall|h: int| 0 <= h < keys.len() ==> keys[h] != key,
    ensures
        in_first_appearance_order(nodes, prev.push(id), keys.push(key)),
{
    lemma_order_extend(nodes, prev, id, keys);
    let s = prev.push(id);
    let k1 = keys.push(key);
    assert forall|j: int| 0 <= j < prev.len() implies !has_key(nodes, key)(#[trigger] prev[j]) by {
        if has_key(nodes, key)(prev[j]) {
            let g2 = choose|g2: int|
                0 <= g2 < keys.len() && #[trigger] keys[g2] == group_key(nodes, prev[j].0);
            assert(keys[g2] == key);
        }
    }
    assert forall|a: int, b: int| 0 <= a < b < k1.len() implies #[trigger] appears_before(
        nodes,
        s,
        k1[a],
        k1[b],
    ) by {
        if b < keys.len() {
            assert(k1[a] == keys[a] && k1[b] == keys[b]);
            assert(appears_before(nodes, s, keys[a], keys[b]));
        } else {
            let p = has_key(nodes, keys[a]);
            assert(members[a] == prev.filter(p) && members[a].len() > 0);
            let x = prev.filter(p)[0];
            assert(prev.filter(p).contains(x));
            prev.lemma_filter_contains_rev(p, x);
            prev.lemma_filter_pred(p, 0);
            let i = choose|i: int| 0 <= i < prev.len() && prev[i] == x;
            assert(s[i] == prev[i]);
            assert forall|j: int| 0 <= j <= i implies !has_key(nodes, k1[b])(#[trigger] s[j]) by {
                assert(s[j] == prev[j]);
                assert(!has_key(nodes, key)(prev[j]));
            }
            assert(has_key(nodes, k1[a])(s[i]));
        }
    }
}

/// The views of a list of strings.
pub open spec fn string_views(v: Seq<String>) -> Seq<Seq<char>> {
    v.map_values(|s: String| s@)
}

/// The views of a list of id lists.
pub open spec fn id_list_views(v: Seq<Vec<WebNodeId>>) -> Seq<Seq<WebNodeId>> {
    v.map_values(|m: Vec<WebNodeId>| m@)
}

/// Groups the eligible node ids by group name (label, or `unlabeled_<id>`),
/// in order of first appearance; ids that name no node are skipped.
pub fn group_by_label<N, W>(web: &KvWeb<N, W>, eligible: &Vec<WebNodeId>) -> (res: (
    Vec<String>,
    Vec<Vec<WebNodeId>>,
))
    ensures
        is_label_grouping(web.nodes@, eligible@, string_views(res.0@), id_list_views(res.1@)),
        in_first_appearance_order(web.nodes@, eligible@, string_views(res.0@)),
{
    let mut keys: Vec<String> = Vec::new();
    let mut members: Vec<Vec<WebNodeId>> = Vec::new();
    let mut j: usize = 0;
    while j < eligible.len()
        invariant
            j <= eligible@.len(),
            is_label_grouping(
                web.nodes@,
                eligible@.take(j as int),
                string_views(keys@),
                id_list_views(members@),
            ),
            in_first_appearance_order(web.nodes@, eligible@.take(j as int), string_views(keys@)),
        decreases eligible.len() - j,
    {
        let ghost nodes = web.nodes@;
        let ghost prev = eligible@.take(j as int);
        let ghost kv0 = string_views(keys@);
        let ghost mv0 = id_list_views(members@);
        let id = eligible[j];
        proof {
            assert(eligible@.take(j + 1) =~= prev.push(id));
        }
        match web.nodes.get(&id.0) {
            None => {
                proof {
                    lemma_order_extend(nodes, prev, id, kv0);
                    assert forall|g: int| 0 <= g < kv0.len() implies #[trigger] mv0[g]
                        == eligible@.take(j + 1).filter(has_key(nodes, kv0[g])) by {
                        prev.lemma_filter_push(id, has_key(nodes, kv0[g]));
                    }
                    assert forall|i: int|
                        0 <= i < j + 1 && nodes.contains_key(
                            #[trigger] eligible@.take(j + 1)[i].0,
                        ) implies exists|g: int|
                        0 <= g < kv0.len() && #[trigger] kv0[g] == group_key(
                            nodes,
                            eligible@.take(j + 1)[i].0,
                        ) by {
                        assert(eligible@.take(j + 1)[i] == prev[i]);
                    }
                }
            },
            Some(node) => {
                let key: String = match &node.label {
                    Some(s) => s.clone(),
                    None => unlabeled_key(id.0),
                };
                proof {
                    assert(key@ == group_key(nodes, id.0));
                }
                let mut g: usize = 0;
                let mut found = false;
                while g < keys.len()
                    invariant_except_break
                        g <= keys@.len(),
                        !found,
                        forall|h: int| 0 <= h < g ==> keys@[h]@ != key@,
                    ensures
                        g <= keys@.len(),
                        found ==> g < keys@.len() && keys@[g as int]@ == key@,
                        !found ==> forall|h: int| 0 <= h < keys@.len() ==> keys@[h]@ != key@,
                    decreases keys.len() - g,
                {
                    if keys[g] == key {
                        found = true;
                        break;
                    }
                    g = g + 1;
                }
                if found {
                    members[g].push(id);
                    proof {
                        lemma_order_extend(nodes, prev, id, kv0);
                        let mv1 = id_list_views(members@);
                        assert forall|h: int| 0 <= h < kv0.len() implies #[trigger] mv1[h]
                            == eligible@.take(j + 1).filter(has_key(nodes, kv0[h]))
                            && mv1[h].len() > 0 by {
                            prev.lemma_filter_push(id, has_key(nodes, kv0[h]));
                            assert(kv0[h] == keys@[h]@);
                            if h == g {
                                assert(mv1[h] =~= mv0[h].push(id));
                            } else {
                                assert(kv0[g as int] == keys@[g as int]@);
                                if h < g {
                                    assert(kv0[h] != kv0[g as int]);
                                } else {
                                    assert(kv0[g as int] != kv0[h]);
                                }
                                assert(mv1[h] == mv0[h]);
                            }
                        }
                        assert forall|i: int|
                            0 <= i < j + 1 && nodes.contains_key(
                                #[trigger] eligible@.take(j + 1)[i].0,
                            ) implies exists|h: int|
                            0 <= h < kv0.len() && #[trigger] kv0[h] == group_key(
                                nodes,
                                eligible@.take(j + 1)[i].0,
                            ) by {
                            if i < j {
                                assert(eligible@.take(j + 1)[i] == prev[i]);
                            } else {
                                assert(kv0[g as int] == key@);
                            }
                        }
                        assert(string_views(keys@) == kv0);
                    }
                } else {
                    let ghost kview = key@;
                    proof {
                        assert forall|h: int| 0 <= h < kv0.len() implies kv0[h] != kview by {
                            assert(kv0[h] == keys@[h]@);
                        }
                        lemma_order_new_key(nodes, prev, id, kv0, mv0, kview);
                    }
                    keys.push(key);
                    let mut single: Vec<WebNodeId> = Vec::new();
                    single.push(id);
                    members.push(single);
                    proof {
                        let kv1 = string_views(keys@);
                        let mv1 = id_list_views(members@);
                        assert(kv1 =~= kv0.push(kview));
                        assert(mv1 =~= mv0.push(seq![id]));
                        assert forall|h: int| 0 <= h < kv1.len() implies #[trigger] mv1[h]
                            == eligible@.take(j + 1).filter(has_key(nodes, kv1[h]))
                            && mv1[h].len() > 0 by {
                            prev.lemma_filter_push(id, has_key(nodes, kv1[h]));
                            if h == kv0.len() {
                                let p = has_key(nodes, kview);
                                if prev.filter(p).len() > 0 {
                                    let x = prev.filter(p)[0];
                                    assert(prev.filter(p).contains(x));
                                    prev.lemma_filter_contains_rev(p, x);
                                    let i = choose|i: int| 0 <= i < prev.len() && prev[i] == x;
                                    assert(nodes.contains_key(prev[i].0));
                                    assert(eligible@.take(j as int)[i] == prev[i]);
                                    let g2 = choose|g2: int|
                                        0 <= g2 < kv0.len() && #[trigger] kv0[g2] == group_key(
                                            nodes,
                                            prev[i].0,
                                        );
                                    assert(kv0[g2] == keys@[g2]@);
                                    assert(false);
                                }
                                assert(prev.filter(p) =~= Seq::<WebNodeId>::empty());
                            }
                        }
                        assert forall|i: int|
                            0 <= i < j + 1 && nodes.contains_key(
                                #[trigger] eligible@.take(j + 1)[i].0,
                            ) implies exists|h: int|
                            0 <= h < kv1.len() && #[trigger] kv1[h] == group_key(
                                nodes,
                                eligible@.take(j + 1)[i].0,
                            ) by {
                            if i < j {
                                assert(eligible@.take(j + 1)[i] == prev[i]);
                                let g2 = choose|g2: int|
                                    0 <= g2 < kv0.len() && #[trigger] kv0[g2] == group_key(
                                        nodes,
                                        prev[i].0,
                                    );
                                assert(kv1[g2] == kv0[g2]);
                            } else {
                                assert(kv1[kv0.len() as int] == kview);
                            }
                        }
                        assert forall|a: int, b: int| 0 <= a < b < kv1.len() implies kv1[a]
                            != kv1[b] by {
                            if b == kv0.len() {
                                assert(kv0[a] == keys@[a]@);
                            }
                        }
                    }
                }
            },
        }
        j = j + 1;
    }
    proof {
        assert(eligible@.take(eligible@.len() as int) =~= eligible@);
    }
    (keys, members)
}

/// `s` cut into consecutive pieces of `size` ids, the last one possibly
/// shorter; no pieces for an empty `s`.
pub open spec fn chunks_of(s: Seq<WebNodeId>, size: nat) -> Seq<Seq<WebNodeId>>
    decreases s.len(),
{
    if s.len() == 0 || size == 0 {
        Seq::empty()
    } else if s.len() <= size {
        seq![s]
    } else {
        seq![s.take(size as int)] + chunks_of(s.skip(size as int), size)
    }
}

/// Every piece paired with the group name `key`.
pub open spec fn tagged(key: Seq<char>, pieces: Seq<Seq<WebNodeId>>) -> Seq<(Seq<char>, Seq<WebNodeId>)> {
    pieces.map_values(|c: Seq<WebNodeId>| (key, c))
}

/// The clusters of a grouping: each group's pieces in turn, every piece
/// paired with its group's name.
pub open spec fn planned(keys: Seq<Seq<char>>, members: Seq<Seq<WebNodeId>>, size: nat) -> Seq<
    (Seq<char>, Seq<WebNodeId>),
>
    decreases members.len(),
{
    if members.len() == 0 {
        Seq::empty()
    } else {
        let n = members.len() - 1;
        planned(keys, members.take(n), size) + tagged(keys[n], chunks_of(members[n], size))
    }
}

/// Cutting at position `i` splits off one piece that ends at the next cut.
pub proof fn lemma_chunks_step(s: Seq<WebNodeId>, i: int, size: nat)
    requires
        0 <= i < s.len(),
        size >= 1,
    ensures
        ({
            let end = if s.len() - i > size {
                i + size
            } else {
                s.len() as int
            };
            chunks_of(s.skip(i), size) == seq![s.subrange(i, end)] + chunks_of(s.skip(end), size)
        }),
{
    if s.len() - i > size {
        assert(s.skip(i).take(size as int) =~= s.subrange(i, i + size));
        assert(s.skip(i).skip(size as int) =~= s.skip(i + size));
    } else {
        assert(s.skip(i) =~= s.subrange(i, s.len() as int));
        assert(s.skip(s.len() as int) =~= Seq::<WebNodeId>::empty());
        assert(seq![s.subrange(i, s.len() as int)] + Seq::<Seq<WebNodeId>>::empty() =~= seq![
            s.subrange(i, s.len() as int),
        ]);
    }
}

/// Cutting loses and reorders nothing: the pieces of `s`, concatenated, give
/// back `s`; every piece holds between 1 and `size` ids, and every piece but
/// the last holds exactly `size`.
pub proof fn lemma_chunks_concat(s: Seq<WebNodeId>, size: nat)
    requires
        size >= 1,
    ensures
        chunks_of(s, size).flatten() == s,
        forall|k: int|
            0 <= k < chunks_of(s, size).len() ==> 1 <= (#[trigger] chunks_of(s, size)[k]).len()
                <= size,
        forall|k: int|
            0 <= k < chunks_of(s, size).len() - 1 ==> (#[trigger] chunks_of(s, size)[k]).len()
                == size,
    decreases s.len(),
{
    if s.len() == 0 {
    } else if s.len() <= size {
        let c = chunks_of(s, size);
        assert(c =~= seq![s]);
        c.lemma_flatten_one_element();
    } else {
        let rest = s.skip(size as int);
        lemma_chunks_concat(rest, size);
        vstd::seq_lib::lemma_flatten_concat(seq![s.take(size as int)], chunks_of(rest, size));
        let one = seq![s.take(size as int)];
        one.lemma_flatten_one_element();
        assert(s.take(size as int) + rest =~= s);
        let c = chunks_of(s, size);
        assert forall|k: int| 0 <= k < c.len() implies 1 <= (#[trigger] c[k]).len() <= size by {
            if k > 0 {
                assert(c[k] == chunks_of(rest, size)[k - 1]);
            }
        }
        assert forall|k: int| 0 <= k < c.len() - 1 implies (#[trigger] c[k]).len() == size by {
            if k > 0 {
                assert(c[k] == chunks_of(rest, size)[k - 1]);
            }
        }
    }
}

/// The node lists of planned clusters.
pub open spec fn planned_nodes(p: Seq<(Seq<char>, Seq<WebNodeId>)>) -> Seq<Seq<WebNodeId>> {
    p.map_values(|x: (Seq<char>, Seq<WebNodeId>)| x.1)
}

/// Clustering loses, duplicates and reorders nothing: the clusters' node
/// lists, concatenated in cluster order, are the groups' node lists
/// concatenated in group order.
pub proof fn lemma_planned_concat(keys: Seq<Seq<char>>, members: Seq<Seq<WebNodeId>>, size: nat)
    requires
        size >= 1,
        keys.len() == members.len(),
    ensures
        planned_nodes(planned(keys, members, size)).flatten() == members.flatten(),
    decreases members.len(),
{
    if members.len() == 0 {
        assert(planned_nodes(planned(keys, members, size)) =~= Seq::<Seq<WebNodeId>>::empty());
    } else {
        let n = members.len() - 1;
        let front = members.take(n);
        lemma_planned_concat(keys.take(n), front, size);
        lemma_planned_keys(keys, keys.take(n), front, size);
        let pieces = chunks_of(members[n], size);
        lemma_chunks_concat(members[n], size);
        let a = planned_nodes(planned(keys, front, size));
        let b = planned_nodes(tagged(keys[n], pieces));
        assert(b =~= pieces);
        assert(planned_nodes(planned(keys, members, size)) =~= a + b);
        vstd::seq_lib::lemma_flatten_concat(a, b);
        assert(members =~= front.push(members[n]));
        front.lemma_flatten_push(members[n]);
    }
}

/// The clusters of a grouping depend on the names only through the groups
/// they name.
proof fn lemma_planned_keys(k1: Seq<Seq<char>>, k2: Seq<Seq<char>>, members: Seq<Seq<WebNodeId>>, size: nat)
    requires
        forall|g: int| 0 <= g < members.len() ==> k1[g] == k2[g],
    ensures
        planned(k1, members, size) == planned(k2, members, size),
    decreases members.len(),
{
    if members.len() > 0 {
        let n = members.len() - 1;
        lemma_planned_keys(k1, k2, members.take(n), size);
    }
}

/// A cluster: consecutive id, group name, and member ids.
#[derive(Debug)]
pub struct Cluster {
    pub id: usize,
    pub nodes: Vec<WebNodeId>,
    pub label: Option<String>,
}

/// The cluster at position `k` carries id `k`, the name `p.0` and the ids `p.1`.
pub open spec fn cluster_is(c: Cluster, k: int, p: (Seq<char>, Seq<WebNodeId>)) -> bool {
    &&& c.id == k
    &&& c.label is Some
    &&& c.label.unwrap()@ == p.0
    &&& c.nodes@ == p.1
}

/// Cuts every group into clusters of at most `size` ids (the last piece of a
/// group possibly shorter) and numbers the clusters consecutively from 0.
pub fn plan_clusters(keys: &Vec<String>, members: &Vec<Vec<WebNodeId>>, size: usize) -> (clusters:
    Vec<Cluster>)
    requires
        keys@.len() == members@.len(),
        size >= 1,
    ensures
        clusters@.len() == planned(string_views(keys@), id_list_views(members@), size as nat).len(),
        forall|k: int|
            0 <= k < clusters@.len() ==> #[trigger] cluster_is(
                clusters@[k],
                k,
                planned(string_views(keys@), id_list_views(members@), size as nat)[k],
            ),
{
    let ghost kv = string_views(keys@);
    let ghost mv = id_list_views(members@);
    let mut clusters: Vec<Cluster> = Vec::new();
    let mut g: usize = 0;
    while g < members.len()
        invariant
            g <= members@.len(),
            keys@.len() == members@.len(),
            size >= 1,
            kv == string_views(keys@),
            mv == id_list_views(members@),
            clusters@.len() == planned(kv, mv.take(g as int), size as nat).len(),
            forall|k: int|
                0 <= k < clusters@.len() ==> #[trigger] cluster_is(
                    clusters@[k],
                    k,
                    planned(kv, mv.take(g as int), size as nat)[k],
                ),
        decreases members.len() - g,
    {
        let m = &members[g];
        let ghost base = planned(kv, mv.take(g as int), size as nat);
        let ghost key = kv[g as int];
        let ghost ms = mv[g as int];
        let ghost mut done: Seq<Seq<WebNodeId>> = Seq::empty();
        proof {
            assert(ms == m@);
            assert(ms.skip(0) =~= ms);
        }
        let mut i: usize = 0;
        while i < m.len()
            invariant
                i <= m@.len(),
                ms == m@,
                size >= 1,
                g < keys@.len(),
                key == keys@[g as int]@,
                done + chunks_of(ms.skip(i as int), size as nat) == chunks_of(ms, size as nat),
                clusters@.len() == base.len() + done.len(),
                forall|k: int|
                    0 <= k < clusters@.len() ==> #[trigger] cluster_is(
                        clusters@[k],
                        k,
                        (base + tagged(key, done))[k],
                    ),
            decreases m.len() - i,
        {
            let end: usize = if m.len() - i > size {
                i + size
            } else {
                m.len()
            };
            let piece = copy_range(m, i, end);
            let label = keys[g].clone();
            let ghost done0 = done;
            proof {
                lemma_chunks_step(ms, i as int, size as nat);
                done = done.push(piece@);
                assert(done + chunks_of(ms.skip(end as int), size as nat) =~= done0 + (seq![piece@]
                    + chunks_of(ms.skip(end as int), size as nat)));
                assert(tagged(key, done) =~= tagged(key, done0).push((key, piece@)));
            }
            let ghost k0 = clusters@.len();
            clusters.push(Cluster { id: clusters.len(), nodes: piece, label: Some(label) });
            proof {
                assert forall|k: int| 0 <= k < clusters@.len() implies #[trigger] cluster_is(
                    clusters@[k],
                    k,
                    (base + tagged(key, done))[k],
                ) by {
                    if k < k0 {
                        assert((base + tagged(key, done))[k] == (base
                            + tagged(key, done0))[k]);
                    }
                }
            }
            i = end;
        }
        proof {
            assert(ms.skip(ms.len() as int) =~= Seq::<WebNodeId>::empty());
            assert(done + Seq::<Seq<WebNodeId>>::empty() =~= done);
            assert(mv.take(g + 1).take(g as int) =~= mv.take(g as int));
            assert(mv.take(g + 1)[g as int] == ms);
            assert(planned(kv, mv.take(g + 1), size as nat) == base + tagged(key, chunks_of(ms, size as nat)));
        }
        g = g + 1;
    }
    proof {
        assert(mv.take(mv.len() as int) =~= mv);
    }
    clusters
}

/// The clusters of a web.
#[derive(Debug)]
pub struct KvWebClusters {
    pub clusters: Vec<Cluster>,
    pub compressor: Option<KvWebCompressor>,
}

/// The piece size that clustering uses: `max_cluster_size`, and 1 when it is 0
/// (a cluster is closed as soon as it holds `max_cluster_size` ids).
pub open spec fn piece_size(max_cluster_size: usize) -> nat {
    if max_cluster_size == 0 {
        1
    } else {
        max_cluster_size as nat
    }
}

impl KvWebClusters {
    /// Groups the eligible nodes by label and cuts each group into clusters
    /// of at most `max_cluster_size` ids, numbered from 0; the web's
    /// compressor is carried along.
    pub fn from_web<N, W>(web: &KvWeb<N, W>, eligible: &Vec<WebNodeId>, max_cluster_size: usize) -> (res:
        Self)
        ensures
            res.compressor == web.compressor,
            exists|keys: Seq<Seq<char>>, members: Seq<Seq<WebNodeId>>|
                {
                    &&& is_label_grouping(web.nodes@, eligible@, keys, members)
                    &&& res.clusters@.len() == planned(keys, members, piece_size(max_cluster_size)).len()
                    &&& forall|k: int|
                        0 <= k < res.clusters@.len() ==> #[trigger] cluster_is(
                            res.clusters@[k],
                            k,
                            planned(keys, members, piece_size(max_cluster_size))[k],
                        )
                },
    {
        let (keys, members) = group_by_label(web, eligible);
        let size: usize = if max_cluster_size == 0 {
            1
        } else {
            max_cluster_size
        };
        let clusters = plan_clusters(&keys, &members, size);
        proof {
            let kv = string_views(keys@);
            let mv = id_list_views(members@);
            assert(is_label_grouping(web.nodes@, eligible@, kv, mv));
        }
        KvWebClusters { clusters, compressor: web.compressor }
    }
}

} // verus!
