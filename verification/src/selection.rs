//! What the optimiser is given: the clustered nodes in node order, the
//! clusters that the requested sources fall in, and the candidate clusters
//! (the sources' clusters and the largest ones) with their buildings.
use std::collections::HashMap;
use vstd::prelude::*;

use crate::id_map::{id_map_get, id_map_view};
use crate::model::BuiltGraph;
use crate::sources::{first_occurrences, string_views};

verus! {

broadcast use vstd::std_specs::hash::group_hash_axioms;

/// The clustered nodes below `n` with their clusters, in node order.
pub open spec fn clustered_below(m: Map<usize, usize>, n: int) -> Seq<(usize, usize)>
    decreases n,
{
    if n <= 0 {
        Seq::empty()
    } else {
        let r = clustered_below(m, n - 1);
        if m.contains_key((n - 1) as usize) {
            r.push(((n - 1) as usize, m[(n - 1) as usize]))
        } else {
            r
        }
    }
}

/// The clustered nodes below `n` as `(node, cluster)`, in node order.
pub fn clustered_nodes(clusters: &HashMap<usize, usize>, n: usize) -> (pairs: Vec<(usize, usize)>)
    ensures
        pairs@ == clustered_below(clusters@, n as int),
        forall|k: int| 0 <= k < pairs@.len() ==> (#[trigger] pairs@[k]).0 < n,
        forall|k: int, l: int| 0 <= k < l < pairs@.len() ==> (#[trigger] pairs@[k]).0 < (#[trigger] pairs@[l]).0,
{
    let mut pairs: Vec<(usize, usize)> = Vec::new();
    let mut v: usize = 0;
    while v < n
        invariant
            v <= n,
            pairs@ == clustered_below(clusters@, v as int),
            forall|k: int| 0 <= k < pairs@.len() ==> (#[trigger] pairs@[k]).0 < v,
            forall|k: int, l: int| 0 <= k < l < pairs@.len() ==> (#[trigger] pairs@[k]).0 < (#[trigger] pairs@[l]).0,
        decreases n - v,
    {
        match clusters.get(&v) {
            Some(c) => {
                pairs.push((v, *c));
            },
            None => {},
        }
        v = v + 1;
    }
    pairs
}

/// The node that a source id names: the building of that id, else the
/// connector of that id.
pub open spec fn source_node(bn: Map<Seq<char>, usize>, cn: Map<Seq<char>, usize>, id: Seq<char>) -> Option<usize> {
    if bn.contains_key(id) {
        Some(bn[id])
    } else if cn.contains_key(id) {
        Some(cn[id])
    } else {
        None
    }
}

/// The cluster that a node falls in: its own, else the nearest one that
/// `nearest` gives for it.
pub open spec fn node_cluster(m: Map<usize, usize>, nearest: Seq<Option<(usize, u128)>>, v: usize) -> Option<usize> {
    if m.contains_key(v) {
        Some(m[v])
    } else if v < nearest.len() && nearest[v as int] is Some {
        Some(nearest[v as int]->Some_0.0)
    } else {
        None
    }
}

/// The cluster of each id in turn that names a node falling in one.
pub open spec fn clusters_of_ids(
    bn: Map<Seq<char>, usize>,
    cn: Map<Seq<char>, usize>,
    m: Map<usize, usize>,
    nearest: Seq<Option<(usize, u128)>>,
    ids: Seq<Seq<char>>,
) -> Seq<usize>
    decreases ids.len(),
{
    if ids.len() == 0 {
        Seq::empty()
    } else {
        let r = clusters_of_ids(bn, cn, m, nearest, ids.drop_last());
        match source_node(bn, cn, ids.last()) {
            Some(v) => match node_cluster(m, nearest, v) {
                Some(c) => r.push(c),
                None => r,
            },
            None => r,
        }
    }
}

/// How many of the ids name a node.
pub open spec fn resolved_count(bn: Map<Seq<char>, usize>, cn: Map<Seq<char>, usize>, ids: Seq<Seq<char>>) -> nat
    decreases ids.len(),
{
    if ids.len() == 0 {
        0
    } else {
        resolved_count(bn, cn, ids.drop_last()) + if source_node(bn, cn, ids.last()) is Some {
            1nat
        } else {
            0nat
        }
    }
}

/// The ids that name no node, in order.
pub open spec fn unresolved_ids(bn: Map<Seq<char>, usize>, cn: Map<Seq<char>, usize>, ids: Seq<Seq<char>>) -> Seq<Seq<char>>
    decreases ids.len(),
{
    if ids.len() == 0 {
        Seq::empty()
    } else {
        let r = unresolved_ids(bn, cn, ids.drop_last());
        if source_node(bn, cn, ids.last()) is Some {
            r
        } else {
            r.push(ids.last())
        }
    }
}

/// Where the requested sources fall: the clusters they resolve to (each
/// once, in order of first appearance), how many of them name a node, and
/// those that name none.
pub struct SourceResolution {
    pub cluster_ids: Vec<usize>,
    pub resolved: usize,
    pub unresolved: Vec<String>,
}

/// Whether `x` occurs in `v`.
fn contains_id(v: &Vec<usize>, x: usize) -> (b: bool)
    ensures
        b == v@.contains(x),
{
    let mut i: usize = 0;
    while i < v.len()
        invariant
            i <= v@.len(),
            forall|j: int| 0 <= j < i ==> v@[j] != x,
        decreases v@.len() - i,
    {
        if v[i] == x {
            return true;
        }
        i = i + 1;
    }
    false
}

/// Resolves each source id to a node (a building of that id, else a
/// connector of that id) and each such node to a cluster (its own, else the
/// nearest one in `nearest`, which is indexed by node).
#[verifier::spinoff_prover]
pub fn resolve_sources(
    built: &BuiltGraph,
    clusters: &HashMap<usize, usize>,
    nearest: &Vec<Option<(usize, u128)>>,
    source_ids: &Vec<String>,
) -> (r: SourceResolution)
    ensures
        r.cluster_ids@ == first_occurrences(
            clusters_of_ids(
                id_map_view(built.building_nodes),
                id_map_view(built.connector_nodes),
                clusters@,
                nearest@,
                string_views(source_ids@),
            ),
        ),
        r.resolved == resolved_count(
            id_map_view(built.building_nodes),
            id_map_view(built.connector_nodes),
            string_views(source_ids@),
        ),
        string_views(r.unresolved@) == unresolved_ids(
            id_map_view(built.building_nodes),
            id_map_view(built.connector_nodes),
            string_views(source_ids@),
        ),
{
    let ghost bn = id_map_view(built.building_nodes);
    let ghost cn = id_map_view(built.connector_nodes);
    let ghost m = clusters@;
    let ghost all = string_views(source_ids@);
    let mut cluster_ids: Vec<usize> = Vec::new();
    let mut resolved: usize = 0;
    let mut unresolved: Vec<String> = Vec::new();
    let mut i: usize = 0;
    while i < source_ids.len()
        invariant
            i <= source_ids@.len(),
            all == string_views(source_ids@),
            bn == id_map_view(built.building_nodes),
            cn == id_map_view(built.connector_nodes),
            m == clusters@,
            cluster_ids@ == first_occurrences(clusters_of_ids(bn, cn, m, nearest@, all.take(i as int))),
            resolved == resolved_count(bn, cn, all.take(i as int)),
            resolved <= i,
            string_views(unresolved@) == unresolved_ids(bn, cn, all.take(i as int)),
        decreases source_ids@.len() - i,
    {
        let id = &source_ids[i];
        let ghost before = all.take(i as int);
        proof {
            assert(all.take(i + 1).drop_last() =~= before);
            assert(all.take(i + 1).last() == id@);
        }
        let node = match id_map_get(&built.building_nodes, id) {
            Some(v) => Some(v),
            None => id_map_get(&built.connector_nodes, id),
        };
        match node {
            Some(v) => {
                resolved = resolved + 1;
                let c = match clusters.get(&v) {
                    Some(c) => Some(*c),
                    None => if v < nearest.len() {
                        match nearest[v] {
                            Some((c, _)) => Some(c),
                            None => None,
                        }
                    } else {
                        None
                    },
                };
                match c {
                    Some(c) => {
                        let ghost seq_before = clusters_of_ids(bn, cn, m, nearest@, before);
                        proof {
                            assert(clusters_of_ids(bn, cn, m, nearest@, all.take(i + 1)) == seq_before.push(c));
                            assert(seq_before.push(c).drop_last() =~= seq_before);
                        }
                        if !contains_id(&cluster_ids, c) {
                            cluster_ids.push(c);
                        }
                    },
                    None => {},
                }
            },
            None => {
                let ghost un_before = unresolved@;
                unresolved.push(id.clone());
                proof {
                    assert(string_views(unresolved@) =~= string_views(un_before).push(id@));
                }
            },
        }
        i = i + 1;
    }
    proof {
        assert(all.take(source_ids@.len() as int) =~= all);
    }
    SourceResolution { cluster_ids, resolved, unresolved }
}

/// The buildings of cluster `c` in `pairs`, in order.
pub open spec fn members_of(pairs: Seq<(usize, usize)>, c: usize) -> Seq<usize>
    decreases pairs.len(),
{
    if pairs.len() == 0 {
        Seq::empty()
    } else {
        let r = members_of(pairs.drop_last(), c);
        if pairs.last().1 == c {
            r.push(pairs.last().0)
        } else {
            r
        }
    }
}

/// The clusters of `pairs`, each once, in order of first appearance.
pub open spec fn cluster_list(pairs: Seq<(usize, usize)>) -> Seq<usize> {
    first_occurrences(Seq::new(pairs.len(), |i: int| pairs[i].1))
}

/// Cluster `a` ranks above cluster `b`: it has more buildings, or as many and
/// a higher id.
pub open spec fn ranks_above(pairs: Seq<(usize, usize)>, a: usize, b: usize) -> bool {
    let na = members_of(pairs, a).len();
    let nb = members_of(pairs, b).len();
    na > nb || (na == nb && a > b)
}

/// `top` lists the `k` highest-ranked clusters of `pairs` (all of them when
/// there are fewer), highest first.
pub open spec fn is_top(pairs: Seq<(usize, usize)>, k: nat, top: Seq<usize>) -> bool {
    let d = cluster_list(pairs);
    &&& top.len() == if k < d.len() {
        k
    } else {
        d.len()
    }
    &&& forall|i: int| 0 <= i < top.len() ==> d.contains(#[trigger] top[i])
    &&& forall|i: int, j: int| 0 <= i < j < top.len() ==> ranks_above(pairs, #[trigger] top[i], #[trigger] top[j])
    &&& forall|c: usize|
        d.contains(c) && !top.contains(c) ==> forall|i: int| 0 <= i < top.len() ==> ranks_above(pairs, #[trigger] top[i], c)
}

/// The first occurrences hold each element once and no other.
proof fn lemma_first_occurrences<A>(s: Seq<A>)
    ensures
        first_occurrences(s).no_duplicates(),
        forall|x: A| #[trigger] first_occurrences(s).contains(x) <==> s.contains(x),
    decreases s.len(),
{
    if s.len() > 0 {
        lemma_first_occurrences(s.drop_last());
        let r = first_occurrences(s.drop_last());
        assert forall|x: A| #[trigger] first_occurrences(s).contains(x) <==> s.contains(x) by {
            if s.contains(x) && x != s.last() {
                let j = choose|j: int| 0 <= j < s.len() && s[j] == x;
                assert(s.drop_last()[j] == x);
            }
            if s.drop_last().contains(x) {
                let j = choose|j: int| 0 <= j < s.drop_last().len() && s.drop_last()[j] == x;
                assert(s[j] == x);
            }
            if !r.contains(s.last()) {
                if r.push(s.last()).contains(x) && x != s.last() {
                    let j = choose|j: int| 0 <= j < r.push(s.last()).len() && r.push(s.last())[j] == x;
                    assert(r[j] == x);
                }
                if r.contains(x) {
                    let j = choose|j: int| 0 <= j < r.len() && r[j] == x;
                    assert(r.push(s.last())[j] == x);
                }
                assert(r.push(s.last())[r.len() as int] == s.last());
            }
            assert(s[s.len() - 1] == s.last());
        }
    }
}

/// A cluster has no more buildings than there are pairs.
proof fn lemma_members_len(pairs: Seq<(usize, usize)>, c: usize)
    ensures
        members_of(pairs, c).len() <= pairs.len(),
    decreases pairs.len(),
{
    if pairs.len() > 0 {
        lemma_members_len(pairs.drop_last(), c);
    }
}

/// A cluster that no pair names has no buildings.
proof fn lemma_members_absent(pairs: Seq<(usize, usize)>, c: usize)
    requires
        forall|j: int| 0 <= j < pairs.len() ==> (#[trigger] pairs[j]).1 != c,
    ensures
        members_of(pairs, c).len() == 0,
    decreases pairs.len(),
{
    if pairs.len() > 0 {
        assert forall|j: int| 0 <= j < pairs.drop_last().len() implies (#[trigger] pairs.drop_last()[j]).1 != c by {
            assert(pairs.drop_last()[j] == pairs[j]);
        }
        lemma_members_absent(pairs.drop_last(), c);
        assert(pairs[pairs.len() - 1].1 != c);
    }
}

/// The building count of each cluster of `pairs`, and the clusters in order
/// of first appearance.
#[verifier::spinoff_prover]
fn cluster_sizes(pairs: &Vec<(usize, usize)>) -> (res: (HashMap<usize, usize>, Vec<usize>))
    ensures
        res.1@ == cluster_list(pairs@),
        forall|c: usize| #[trigger] res.0@.contains_key(c) <==> res.1@.contains(c),
        forall|c: usize| #[trigger] res.0@.contains_key(c) ==> res.0@[c] == members_of(pairs@, c).len(),
{
    let mut sizes: HashMap<usize, usize> = HashMap::new();
    let mut d: Vec<usize> = Vec::new();
    let ghost labels = Seq::new(pairs@.len(), |i: int| pairs@[i].1);
    let mut i: usize = 0;
    while i < pairs.len()
        invariant
            i <= pairs@.len(),
            labels == Seq::new(pairs@.len(), |i: int| pairs@[i].1),
            d@ == first_occurrences(labels.take(i as int)),
            forall|c: usize| #[trigger] sizes@.contains_key(c) <==> d@.contains(c),
            forall|c: usize| #[trigger] sizes@.contains_key(c) ==> sizes@[c] == members_of(pairs@.take(i as int), c).len(),
        decreases pairs@.len() - i,
    {
        let (v, c) = pairs[i];
        let ghost before = d@;
        proof {
            assert(labels.take(i + 1).drop_last() =~= labels.take(i as int));
            assert(labels.take(i + 1).last() == c);
            assert(pairs@.take(i + 1).drop_last() =~= pairs@.take(i as int));
            assert(pairs@.take(i + 1).last() == (v, c));
            lemma_first_occurrences(labels.take(i as int));
            lemma_members_len(pairs@.take(i as int), c);
            assert forall|x: usize| #[trigger] members_of(pairs@.take(i + 1), x) == if x == c {
                members_of(pairs@.take(i as int), x).push(v)
            } else {
                members_of(pairs@.take(i as int), x)
            } by {}
        }
        match sizes.get(&c) {
            Some(k) => {
                let k = *k;
                sizes.insert(c, k + 1);
            },
            None => {
                proof {
                    assert(!labels.take(i as int).contains(c));
                    assert forall|j: int| 0 <= j < pairs@.take(i as int).len() implies (#[trigger] pairs@.take(i as int)[j]).1 != c by {
                        assert(labels.take(i as int)[j] == pairs@[j].1);
                    }
                    lemma_members_absent(pairs@.take(i as int), c);
                }
                sizes.insert(c, 1);
                d.push(c);
                proof {
                    assert forall|x: usize| #[trigger] sizes@.contains_key(x) <==> d@.contains(x) by {
                        if before.contains(x) {
                            let j = choose|j: int| 0 <= j < before.len() && before[j] == x;
                            assert(d@[j] == x);
                        }
                        if d@.contains(x) && x != c {
                            let j = choose|j: int| 0 <= j < d@.len() && d@[j] == x;
                            assert(before[j] == x);
                        }
                        assert(d@[before.len() as int] == c);
                    }
                }
            },
        }
        i = i + 1;
    }
    proof {
        assert(labels.take(pairs@.len() as int) =~= labels);
        assert(pairs@.take(pairs@.len() as int) =~= pairs@);
    }
    (sizes, d)
}

/// Of two different clusters, exactly one ranks above the other.
proof fn lemma_ranks_total(pairs: Seq<(usize, usize)>, a: usize, b: usize)
    requires
        a != b,
    ensures
        ranks_above(pairs, a, b) != ranks_above(pairs, b, a),
{
}

/// The `k` highest-ranked of the clusters `d`, whose building counts `sizes`
/// holds, highest first.
#[verifier::spinoff_prover]
fn top_clusters(sizes: &HashMap<usize, usize>, d: &Vec<usize>, k: usize, Ghost(pairs): Ghost<Seq<(usize, usize)>>) -> (top: Vec<usize>)
    requires
        d@ == cluster_list(pairs),
        forall|c: usize| #[trigger] sizes@.contains_key(c) <==> d@.contains(c),
        forall|c: usize| #[trigger] sizes@.contains_key(c) ==> sizes@[c] == members_of(pairs, c).len(),
    ensures
        is_top(pairs, k as nat, top@),
{
    proof {
        lemma_first_occurrences(Seq::new(pairs.len(), |i: int| pairs[i].1));
    }
    let n = d.len();
    let mut picked: Vec<bool> = Vec::new();
    let mut i: usize = 0;
    while i < n
        invariant
            i <= n,
            n == d@.len(),
            picked@.len() == i,
            forall|j: int| 0 <= j < i ==> !(#[trigger] picked@[j]),
        decreases n - i,
    {
        picked.push(false);
        i = i + 1;
    }
    let mut top: Vec<usize> = Vec::new();
    while top.len() < k && top.len() < n
        invariant
            n == d@.len(),
            d@.no_duplicates(),
            d@ == cluster_list(pairs),
            forall|c: usize| #[trigger] sizes@.contains_key(c) <==> d@.contains(c),
            forall|c: usize| #[trigger] sizes@.contains_key(c) ==> sizes@[c] == members_of(pairs, c).len(),
            picked@.len() == n,
            top@.len() <= k,
            top@.len() <= n,
            forall|j: int| 0 <= j < n ==> (#[trigger] picked@[j] <==> top@.contains(d@[j])),
            forall|t: int| 0 <= t < top@.len() ==> d@.contains(#[trigger] top@[t]),
            forall|t: int, u: int| 0 <= t < u < top@.len() ==> ranks_above(pairs, #[trigger] top@[t], #[trigger] top@[u]),
            forall|j: int, t: int|
                0 <= j < n && !picked@[j] && 0 <= t < top@.len() ==> ranks_above(pairs, #[trigger] top@[t], #[trigger] d@[j]),
        decreases n - top@.len(),
    {
        // some cluster is not taken yet
        proof {
            if forall|j: int| 0 <= j < n ==> #[trigger] picked@[j] {
                d@.unique_seq_to_set();
                assert(d@.to_set().subset_of(top@.to_set())) by {
                    assert forall|x: usize| d@.to_set().contains(x) implies top@.to_set().contains(x) by {
                        let j = choose|j: int| 0 <= j < n && d@[j] == x;
                        assert(picked@[j]);
                    }
                }
                vstd::seq_lib::seq_to_set_is_finite(top@);
                vstd::set_lib::lemma_len_subset(d@.to_set(), top@.to_set());
                top@.lemma_cardinality_of_set();
                assert(false);
            }
        }
        let mut best: usize = n;
        let mut best_size: usize = 0;
        let mut j: usize = 0;
        while j < n
            invariant
                j <= n,
                n == d@.len(),
                picked@.len() == n,
                forall|c: usize| #[trigger] sizes@.contains_key(c) <==> d@.contains(c),
                forall|c: usize| #[trigger] sizes@.contains_key(c) ==> sizes@[c] == members_of(pairs, c).len(),
                best == n || (best < j && !picked@[best as int] && best_size == members_of(pairs, d@[best as int]).len()),
                best < n ==> forall|x: int|
                    0 <= x < j && !picked@[x] && x != best ==> ranks_above(pairs, d@[best as int], #[trigger] d@[x]),
                best == n ==> forall|x: int| 0 <= x < j ==> #[trigger] picked@[x],
                d@.no_duplicates(),
            decreases n - j,
        {
            if !picked[j] {
                let c = d[j];
                proof {
                    assert(d@.contains(c));
                }
                let size = match sizes.get(&c) {
                    Some(z) => *z,
                    None => 0,
                };
                if best == n || size > best_size || (size == best_size && c > d[best]) {
                    proof {
                        if best < n {
                            assert forall|x: int| 0 <= x < j + 1 && !picked@[x] && x != j implies ranks_above(
                                pairs,
                                d@[j as int],
                                #[trigger] d@[x],
                            ) by {
                                if x != best {
                                    assert(ranks_above(pairs, d@[best as int], d@[x]));
                                }
                            }
                        }
                    }
                    best = j;
                    best_size = size;
                } else {
                    proof {
                        assert(d@[j as int] != d@[best as int]);
                        lemma_ranks_total(pairs, d@[j as int], d@[best as int]);
                    }
                }
            }
            j = j + 1;
        }
        let ghost before = top@;
        let c = d[best];
        picked.set(best, true);
        top.push(c);
        proof {
            assert forall|x: int| 0 <= x < n implies (#[trigger] picked@[x] <==> top@.contains(d@[x])) by {
                if x == best {
                    assert(top@[before.len() as int] == c);
                } else {
                    assert(d@[x] != c);
                    if before.contains(d@[x]) {
                        let t = choose|t: int| 0 <= t < before.len() && before[t] == d@[x];
                        assert(top@[t] == d@[x]);
                    }
                    if top@.contains(d@[x]) {
                        let t = choose|t: int| 0 <= t < top@.len() && top@[t] == d@[x];
                        assert(before[t] == d@[x]);
                    }
                }
            }
            assert forall|t: int| 0 <= t < top@.len() implies d@.contains(#[trigger] top@[t]) by {
                if t < before.len() {
                    assert(top@[t] == before[t]);
                }
            }
            assert forall|t: int, u: int| 0 <= t < u < top@.len() implies ranks_above(pairs, #[trigger] top@[t], #[trigger] top@[u]) by {
                if u < before.len() {
                    assert(top@[t] == before[t] && top@[u] == before[u]);
                } else {
                    assert(top@[t] == before[t]);
                }
            }
            assert forall|x: int, t: int|
                0 <= x < n && !picked@[x] && 0 <= t < top@.len() implies ranks_above(pairs, #[trigger] top@[t], #[trigger] d@[x]) by {
                if t < before.len() {
                    assert(top@[t] == before[t]);
                }
            }
        }
    }
    proof {
        let dl = cluster_list(pairs);
        assert forall|c: usize| dl.contains(c) && !top@.contains(c) implies forall|t: int|
            0 <= t < top@.len() ==> ranks_above(pairs, #[trigger] top@[t], c) by {
            let x = choose|x: int| 0 <= x < n && d@[x] == c;
            assert(!picked@[x]);
            assert forall|t: int| 0 <= t < top@.len() implies ranks_above(pairs, #[trigger] top@[t], c) by {
                assert(ranks_above(pairs, top@[t], d@[x]));
            }
        }
    }
    top
}

/// The buildings of cluster `c` in `pairs`, in order.
fn members(pairs: &Vec<(usize, usize)>, c: usize) -> (m: Vec<usize>)
    ensures
        m@ == members_of(pairs@, c),
{
    let mut m: Vec<usize> = Vec::new();
    let mut i: usize = 0;
    while i < pairs.len()
        invariant
            i <= pairs@.len(),
            m@ == members_of(pairs@.take(i as int), c),
        decreases pairs@.len() - i,
    {
        proof {
            assert(pairs@.take(i + 1).drop_last() =~= pairs@.take(i as int));
        }
        if pairs[i].1 == c {
            m.push(pairs[i].0);
        }
        i = i + 1;
    }
    proof {
        assert(pairs@.take(pairs@.len() as int) =~= pairs@);
    }
    m
}

/// The candidate clusters, with their buildings in order: those of `pairs`
/// (clustered nodes with their clusters, as from `clustered_nodes`) that
/// are among `sources` or among the `largest` clusters with the most
/// buildings (ties go to the higher id).
#[verifier::spinoff_prover]
pub fn candidate_clusters(pairs: &Vec<(usize, usize)>, sources: &Vec<usize>, largest: usize) -> (cands: HashMap<usize, Vec<usize>>)
    ensures
        exists|top: Seq<usize>|
            #[trigger] is_top(pairs@, largest as nat, top) && (forall|c: usize|
                #[trigger] cands@.contains_key(c) <==> cluster_list(pairs@).contains(c) && (sources@.contains(c)
                    || top.contains(c))),
        forall|c: usize| #[trigger] cands@.contains_key(c) ==> cands@[c]@ == members_of(pairs@, c),
{
    let (sizes, d) = cluster_sizes(pairs);
    let top = top_clusters(&sizes, &d, largest, Ghost(pairs@));
    let mut cands: HashMap<usize, Vec<usize>> = HashMap::new();
    let mut i: usize = 0;
    while i < sources.len()
        invariant
            i <= sources@.len(),
            d@ == cluster_list(pairs@),
            forall|c: usize| #[trigger] sizes@.contains_key(c) <==> d@.contains(c),
            forall|c: usize|
                #[trigger] cands@.contains_key(c) <==> d@.contains(c) && sources@.take(i as int).contains(c),
            forall|c: usize| #[trigger] cands@.contains_key(c) ==> cands@[c]@ == members_of(pairs@, c),
        decreases sources@.len() - i,
    {
        let c = sources[i];
        proof {
            let s1 = sources@.take(i + 1);
            let s0 = sources@.take(i as int);
            assert forall|x: usize| s1.contains(x) <==> s0.contains(x) || x == c by {
                if s1.contains(x) && x != c {
                    let j = choose|j: int| 0 <= j < s1.len() && s1[j] == x;
                    assert(s0[j] == x);
                }
                if s0.contains(x) {
                    let j = choose|j: int| 0 <= j < s0.len() && s0[j] == x;
                    assert(s1[j] == x);
                }
                assert(s1[i as int] == c);
            }
        }
        if sizes.contains_key(&c) {
            let m = members(pairs, c);
            cands.insert(c, m);
        }
        i = i + 1;
    }
    proof {
        assert(sources@.take(sources@.len() as int) =~= sources@);
    }
    let mut t: usize = 0;
    while t < top.len()
        invariant
            t <= top@.len(),
            d@ == cluster_list(pairs@),
            is_top(pairs@, largest as nat, top@),
            forall|c: usize|
                #[trigger] cands@.contains_key(c) <==> d@.contains(c) && (sources@.contains(c) || top@.take(t as int).contains(c)),
            forall|c: usize| #[trigger] cands@.contains_key(c) ==> cands@[c]@ == members_of(pairs@, c),
        decreases top@.len() - t,
    {
        let c = top[t];
        proof {
            assert(d@.contains(top@[t as int]));
            let s1 = top@.take(t + 1);
            let s0 = top@.take(t as int);
            assert forall|x: usize| s1.contains(x) <==> s0.contains(x) || x == c by {
                if s1.contains(x) && x != c {
                    let j = choose|j: int| 0 <= j < s1.len() && s1[j] == x;
                    assert(s0[j] == x);
                }
                if s0.contains(x) {
                    let j = choose|j: int| 0 <= j < s0.len() && s0[j] == x;
                    assert(s1[j] == x);
                }
                assert(s1[t as int] == c);
            }
        }
        let m = members(pairs, c);
        cands.insert(c, m);
        t = t + 1;
    }
    proof {
        assert(top@.take(top@.len() as int) =~= top@);
        assert(is_top(pairs@, largest as nat, top@));
    }
    cands
}

/// The hub of each selected cluster that `cands` holds with some building:
/// its first building, in the order of `selected`.
pub open spec fn hubs_of_selected(cands: Map<usize, Vec<usize>>, selected: Seq<usize>) -> Seq<usize>
    decreases selected.len(),
{
    if selected.len() == 0 {
        Seq::empty()
    } else {
        let r = hubs_of_selected(cands, selected.drop_last());
        let c = selected.last();
        if cands.contains_key(c) && cands[c]@.len() > 0 {
            r.push(cands[c]@[0])
        } else {
            r
        }
    }
}

/// The hubs (first buildings) of the selected clusters, in order.
pub fn selected_hubs(cands: &HashMap<usize, Vec<usize>>, selected: &Vec<usize>) -> (hubs: Vec<usize>)
    ensures
        hubs@ == hubs_of_selected(cands@, selected@),
{
    let mut hubs: Vec<usize> = Vec::new();
    let mut i: usize = 0;
    while i < selected.len()
        invariant
            i <= selected@.len(),
            hubs@ == hubs_of_selected(cands@, selected@.take(i as int)),
        decreases selected@.len() - i,
    {
        proof {
            assert(selected@.take(i + 1).drop_last() =~= selected@.take(i as int));
        }
        match cands.get(&selected[i]) {
            Some(m) => {
                if m.len() > 0 {
                    hubs.push(m[0]);
                }
            },
            None => {},
        }
        i = i + 1;
    }
    proof {
        assert(selected@.take(selected@.len() as int) =~= selected@);
    }
    hubs
}

} // verus!
