//! Greedy Pareto search over whole building clusters.
use std::collections::HashMap;
use vstd::prelude::*;
use vstd::std_specs::iter::IteratorSpec;

use crate::model::{BuiltGraph, Edge};
use crate::optimizer::{copied, steiner_spec, steiner_weight, swap_removed, w_of};
use crate::petgraph_specs::{graph_edges, graph_nodes};

verus! {

broadcast use vstd::std_specs::hash::group_hash_axioms;

/// The cluster ids of `m`, each once, in the map's own order.
fn walked_ids(m: &HashMap<usize, Vec<usize>>) -> (order: Vec<usize>)
    ensures
        order@.no_duplicates(),
        order@.to_set() == m@.dom(),
{
    let mut order: Vec<usize> = Vec::new();
    for id in it: m.keys()
        invariant
            order@.len() == it.index(),
            forall|i: int| 0 <= i < order@.len() ==> order@[i] == *it.seq()[i],
    {
        order.push(*id);
    }
    proof {
        let keys = vstd::std_specs::hash::spec_keys_iter(m).remaining().unref();
        assert(order@ =~= keys);
        assert(order@.to_set() =~= m@.dom());
    }
    order
}

/// `order` lists its ids in increasing order.
pub open spec fn increasing(order: Seq<usize>) -> bool {
    forall|i: int, j: int| 0 <= i < j < order.len() ==> (#[trigger] order[i]) < (#[trigger] order[j])
}

/// `x` comes after everything in `order`.
spec fn above(order: Seq<usize>, x: usize) -> bool {
    order.len() == 0 || x > order.last()
}

/// The least id of `keys` that comes after everything in `order`, if any.
fn next_above(keys: &Vec<usize>, order: &Vec<usize>) -> (r: Option<usize>)
    ensures
        match r {
            None => forall|k: int| 0 <= k < keys@.len() ==> !above(order@, #[trigger] keys@[k]),
            Some(b) => keys@.contains(b) && above(order@, b) && forall|k: int|
                0 <= k < keys@.len() && above(order@, #[trigger] keys@[k]) ==> b <= keys@[k],
        },
{
    let mut best: Option<usize> = None;
    let mut j: usize = 0;
    while j < keys.len()
        invariant
            j <= keys@.len(),
            match best {
                None => forall|k: int| 0 <= k < j ==> !above(order@, #[trigger] keys@[k]),
                Some(b) => keys@.contains(b) && above(order@, b) && forall|k: int|
                    0 <= k < j && above(order@, #[trigger] keys@[k]) ==> b <= keys@[k],
            },
        decreases keys@.len() - j,
    {
        let x = keys[j];
        let is_above = order.len() == 0 || x > order[order.len() - 1];
        if is_above {
            match best {
                None => {
                    best = Some(x);
                },
                Some(b) => {
                    if x < b {
                        best = Some(x);
                    }
                },
            }
        }
        proof {
            assert(keys@[j as int] == x);
            assert(is_above == above(order@, x));
        }
        j = j + 1;
    }
    best
}

/// The cluster ids of `m`, each once, in increasing order.
fn cluster_ids(m: &HashMap<usize, Vec<usize>>) -> (order: Vec<usize>)
    ensures
        is_key_order(order@, m@),
        increasing(order@),
{
    let keys = walked_ids(m);
    let ghost n = keys@.len();
    proof {
        keys@.unique_seq_to_set();
    }
    let mut order: Vec<usize> = Vec::new();
    loop
        invariant
            n == keys@.len(),
            keys@.no_duplicates(),
            keys@.to_set().len() == n,
            keys@.to_set() == m@.dom(),
            increasing(order@),
            forall|x: usize| #[trigger] order@.contains(x) ==> keys@.contains(x),
            forall|x: usize|
                #[trigger] keys@.contains(x) && order@.len() > 0 && x <= order@.last() ==> order@.contains(x),
            order@.len() <= n,
        ensures
            increasing(order@),
            order@.to_set() == m@.dom(),
        decreases n - order@.len(),
    {
        match next_above(&keys, &order) {
            None => {
                proof {
                    assert forall|x: usize| order@.to_set().contains(x) <==> keys@.to_set().contains(x) by {
                        if keys@.contains(x) {
                            let k = choose|k: int| 0 <= k < keys@.len() && keys@[k] == x;
                            assert(!above(order@, keys@[k]));
                        }
                    }
                    assert(order@.to_set() =~= keys@.to_set());
                }
                break;
            },
            Some(b) => {
                let ghost before = order@;
                proof {
                    assert(!before.contains(b)) by {
                        if before.contains(b) {
                            let k = choose|k: int| 0 <= k < before.len() && before[k] == b;
                            if k < before.len() - 1 {
                                assert(before[k] < before[before.len() - 1]);
                            }
                        }
                    }
                    assert(before.no_duplicates());
                    before.unique_seq_to_set();
                    assert(before.to_set().subset_of(keys@.to_set().remove(b)));
                    vstd::set_lib::lemma_len_subset(before.to_set(), keys@.to_set().remove(b));
                }
                order.push(b);
                proof {
                    assert forall|i: int, j: int| 0 <= i < j < order@.len() implies (#[trigger] order@[i]) < (#[trigger] order@[j]) by {
                        if j == before.len() {
                            if i < before.len() - 1 {
                                assert(before[i] < before[before.len() - 1]);
                            }
                        } else {
                            assert(before[i] < before[j]);
                        }
                    }
                    assert forall|x: usize| #[trigger] order@.contains(x) implies keys@.contains(x) by {
                        if x != b {
                            let k = choose|k: int| 0 <= k < order@.len() && order@[k] == x;
                            assert(before[k] == x);
                            assert(before.contains(x));
                        } else {
                            assert(keys@.to_set().contains(b));
                        }
                    }
                    assert forall|x: usize| #[trigger] keys@.contains(x) && order@.len() > 0 && x <= order@.last() implies order@.contains(x) by {
                        if x == b {
                            assert(order@[before.len() as int] == b);
                        } else {
                            let k = choose|k: int| 0 <= k < keys@.len() && keys@[k] == x;
                            if above(before, x) {
                                assert(b <= keys@[k]);
                            } else {
                                assert(before.contains(x));
                                let k2 = choose|k2: int| 0 <= k2 < before.len() && before[k2] == x;
                                assert(order@[k2] == x);
                            }
                        }
                    }
                }
            },
        }
    }
    proof {
        assert(order@.no_duplicates()) by {
            assert forall|i: int, j: int| 0 <= i < order@.len() && 0 <= j < order@.len() && i != j implies order@[i] != order@[j] by {
                if i < j {
                    assert(order@[i] < order@[j]);
                } else {
                    assert(order@[j] < order@[i]);
                }
            }
        }
    }
    order
}

/// `x * y` as a high part and a low 64-bit digit.
fn wide_mul(x: u128, y: u64) -> (r: (u128, u64))
    ensures
        r.0 * 0x1_0000_0000_0000_0000int + r.1 == x * y,
{
    let xh: u128 = x >> 64u32;
    let xl: u128 = x & 0xffff_ffff_ffff_ffffu128;
    proof {
        assert(xh < 0x1_0000_0000_0000_0000u128 && xl < 0x1_0000_0000_0000_0000u128) by (bit_vector)
            requires
                xh == x >> 64u32,
                xl == x & 0xffff_ffff_ffff_ffffu128,
        ;
        assert(x == xh * 0x1_0000_0000_0000_0000u128 + xl) by (bit_vector)
            requires
                xh == x >> 64u32,
                xl == x & 0xffff_ffff_ffff_ffffu128,
        ;
        assert(xl * y <= 0xffff_ffff_ffff_ffffu128 * 0xffff_ffff_ffff_ffffu128) by (nonlinear_arith)
            requires
                xl < 0x1_0000_0000_0000_0000u128,
                y < 0x1_0000_0000_0000_0000u128,
        ;
        assert(xh * y <= 0xffff_ffff_ffff_ffffu128 * 0xffff_ffff_ffff_ffffu128) by (nonlinear_arith)
            requires
                xh < 0x1_0000_0000_0000_0000u128,
                y < 0x1_0000_0000_0000_0000u128,
        ;
    }
    let low_full: u128 = xl * (y as u128);
    let high_part: u128 = xh * (y as u128);
    let carry: u128 = low_full >> 64u32;
    let low: u128 = low_full & 0xffff_ffff_ffff_ffffu128;
    proof {
        assert(carry < 0x1_0000_0000_0000_0000u128 && low < 0x1_0000_0000_0000_0000u128) by (bit_vector)
            requires
                carry == low_full >> 64u32,
                low == low_full & 0xffff_ffff_ffff_ffffu128,
        ;
        assert(low_full == carry * 0x1_0000_0000_0000_0000u128 + low) by (bit_vector)
            requires
                carry == low_full >> 64u32,
                low == low_full & 0xffff_ffff_ffff_ffffu128,
        ;
        assert(x * y == high_part * 0x1_0000_0000_0000_0000int + low_full) by (nonlinear_arith)
            requires
                x == xh * 0x1_0000_0000_0000_0000int + xl,
                high_part == xh * y,
                low_full == xl * y,
        ;
    }
    let hi: u128 = high_part + carry;
    (hi, low as u64)
}

/// `a * b < c * d`, computed without overflow.
fn wide_less(a: u128, b: usize, c: u128, d: usize) -> (r: bool)
    ensures
        r == (a * b < c * d),
{
    let (h1, l1) = wide_mul(a, b as u64);
    let (h2, l2) = wide_mul(c, d as u64);
    h1 < h2 || (h1 == h2 && l1 < l2)
}


/// A point of the cluster-level front: the clusters selected so far (in the
/// order they were chosen), how many buildings they hold together, and the
/// approximate Steiner tree weight that connects their hubs.
#[derive(Debug, Clone)]
pub struct ClusterSolution {
    pub selected_clusters: Vec<usize>,
    pub total_buildings_yield: usize,
    pub tree_weight: Option<u128>,
}

/// `order` lists every cluster id of `m` exactly once.
pub open spec fn is_key_order(order: Seq<usize>, m: Map<usize, Vec<usize>>) -> bool {
    order.no_duplicates() && order.to_set() == m.dom()
}

/// The clusters in `order` as (id, hub, size): the hub of a cluster is its
/// first building, its size the number of its buildings.
pub open spec fn cluster_items(m: Map<usize, Vec<usize>>, order: Seq<usize>) -> Seq<(usize, usize, usize)> {
    order.map_values(|id: usize| (id, m[id]@[0], m[id]@.len() as usize))
}

/// The hubs of `cs`.
pub open spec fn hubs_of(cs: Seq<(usize, usize, usize)>) -> Seq<usize> {
    cs.map_values(|c: (usize, usize, usize)| c.1)
}

/// The ids of `cs`.
pub open spec fn ids_of(cs: Seq<(usize, usize, usize)>) -> Seq<usize> {
    cs.map_values(|c: (usize, usize, usize)| c.0)
}

/// The number of buildings in `cs`.
pub open spec fn size_total(cs: Seq<(usize, usize, usize)>) -> int
    decreases cs.len(),
{
    if cs.len() == 0 {
        0
    } else {
        size_total(cs.drop_last()) + cs.last().2
    }
}

/// The tree weight of the clusters chosen so far (0 before the first choice).
pub open spec fn prev_weight(es: Seq<(usize, usize, Edge)>, chosen: Seq<(usize, usize, usize)>) -> Option<int> {
    if chosen.len() == 0 {
        Some(0)
    } else {
        steiner_spec(es, hubs_of(chosen))
    }
}

/// The tree weight once the hub of `c` joins those chosen.
pub open spec fn hub_trial(es: Seq<(usize, usize, Edge)>, chosen: Seq<(usize, usize, usize)>, c: (usize, usize, usize)) -> Option<int> {
    steiner_spec(es, hubs_of(chosen).push(c.1))
}

/// The marginal cost per building of `a` (new weight `wa`, `sa` buildings) is
/// below that of `b`, after the weight `prev`.  `None` is an infinite weight:
/// an infinite new weight after a finite one costs infinitely much; after an
/// infinite one every finite new weight costs minus infinity, so none is below
/// another.
pub open spec fn ratio_lt(wa: Option<int>, sa: int, wb: Option<int>, sb: int, prev: Option<int>) -> bool {
    match prev {
        Some(p) => match (wa, wb) {
            (Some(x), Some(y)) => (x - p) * sb < (y - p) * sa,
            (Some(_), None) => true,
            _ => false,
        },
        None => false,
    }
}

/// Adding `a` costs less per building than adding `b`.
pub open spec fn cheaper(
    es: Seq<(usize, usize, Edge)>,
    chosen: Seq<(usize, usize, usize)>,
    a: (usize, usize, usize),
    b: (usize, usize, usize),
) -> bool {
    ratio_lt(hub_trial(es, chosen, a), a.2 as int, hub_trial(es, chosen, b), b.2 as int, prev_weight(es, chosen))
}

/// `i` is the first position of `rem` with the least cost per building.
pub open spec fn is_first_cheapest(
    es: Seq<(usize, usize, Edge)>,
    chosen: Seq<(usize, usize, usize)>,
    rem: Seq<(usize, usize, usize)>,
    i: int,
) -> bool {
    &&& 0 <= i < rem.len()
    &&& forall|j: int| 0 <= j < rem.len() ==> !cheaper(es, chosen, #[trigger] rem[j], rem[i])
    &&& forall|j: int| 0 <= j < i ==> cheaper(es, chosen, rem[i], #[trigger] rem[j])
}

/// The clusters still to choose and those chosen after `k` greedy steps; each
/// step moves the first cheapest remaining cluster (by swap removal) to the
/// end of the choice.
pub open spec fn cluster_state(es: Seq<(usize, usize, Edge)>, items: Seq<(usize, usize, usize)>, k: nat) -> (
    Seq<(usize, usize, usize)>,
    Seq<(usize, usize, usize)>,
)
    decreases k,
{
    if k == 0 {
        (items, Seq::empty())
    } else {
        let (rem, chosen) = cluster_state(es, items, (k - 1) as nat);
        if rem.len() == 0 {
            (rem, chosen)
        } else {
            let i = choose|i: int| is_first_cheapest(es, chosen, rem, i);
            (swap_removed(rem, i), chosen.push(rem[i]))
        }
    }
}

/// A step compares costs per building only when they are all defined: with
/// two or more clusters left after an infinite weight, each must still give a
/// finite one (an infinite weight less an infinite one has no value).
pub open spec fn step_defined(es: Seq<(usize, usize, Edge)>, st: (Seq<(usize, usize, usize)>, Seq<(usize, usize, usize)>)) -> bool {
    st.0.len() >= 2 && prev_weight(es, st.1) is None ==> forall|j: int|
        0 <= j < st.0.len() ==> hub_trial(es, st.1, #[trigger] st.0[j]) is Some
}

/// Every step of the run on `items` is defined and the building count fits
/// in `usize`.
pub open spec fn cluster_run_defined(es: Seq<(usize, usize, Edge)>, items: Seq<(usize, usize, usize)>) -> bool {
    &&& size_total(items) <= usize::MAX
    &&& forall|k: nat| k < items.len() ==> step_defined(es, #[trigger] cluster_state(es, items, k))
}

/// `result` holds one solution per step of the run on `items`: the ids chosen
/// so far, their building count and the tree weight of their hubs.
pub open spec fn cluster_front_matches(
    es: Seq<(usize, usize, Edge)>,
    items: Seq<(usize, usize, usize)>,
    result: Seq<ClusterSolution>,
) -> bool {
    &&& result.len() == items.len()
    &&& forall|k: int|
        0 <= k < result.len() ==> {
            let chosen = cluster_state(es, items, (k + 1) as nat).1;
            &&& (#[trigger] result[k]).selected_clusters@ == ids_of(chosen)
            &&& result[k].total_buildings_yield == size_total(chosen)
            &&& w_of(result[k].tree_weight) == steiner_spec(es, hubs_of(chosen))
        }
}

proof fn lemma_cross_trans(x: int, a: int, y: int, b: int, z: int, c: int)
    requires
        a > 0,
        b > 0,
        c > 0,
        x * b < y * a,
        y * c < z * b,
    ensures
        x * c < z * a,
{
    assert(x * b * c < y * a * c) by (nonlinear_arith)
        requires
            x * b < y * a,
            c > 0,
    ;
    assert(y * c * a < z * b * a) by (nonlinear_arith)
        requires
            y * c < z * b,
            a > 0,
    ;
    assert(x * c * b < z * a * b) by (nonlinear_arith)
        requires
            x * b * c < y * a * c,
            y * c * a < z * b * a,
    ;
    assert(x * c < z * a) by (nonlinear_arith)
        requires
            x * c * b < z * a * b,
            b > 0,
    ;
}

proof fn lemma_cross_split(x: int, a: int, y: int, b: int, z: int, c: int)
    requires
        a > 0,
        b > 0,
        c > 0,
        x * b < y * a,
    ensures
        x * c < z * a || z * b < y * c,
{
    if !(x * c < z * a) && !(z * b < y * c) {
        assert(z * a * b <= x * c * b) by (nonlinear_arith)
            requires
                z * a <= x * c,
                b > 0,
        ;
        assert(y * c * a <= z * b * a) by (nonlinear_arith)
            requires
                y * c <= z * b,
                a > 0,
        ;
        assert(y * a * c <= x * b * c) by (nonlinear_arith)
            requires
                z * a * b <= x * c * b,
                y * c * a <= z * b * a,
        ;
        assert(y * a <= x * b) by (nonlinear_arith)
            requires
                y * a * c <= x * b * c,
                c > 0,
        ;
    }
}

/// Cost per building is a weak order: `ratio_lt` is transitive, and when `a`
/// is below `b`, any `c` lies above `a` or below `b`.
proof fn lemma_ratio_order(wa: Option<int>, sa: int, wb: Option<int>, sb: int, wc: Option<int>, sc: int, prev: Option<int>)
    requires
        sa > 0,
        sb > 0,
        sc > 0,
    ensures
        ratio_lt(wa, sa, wb, sb, prev) && ratio_lt(wb, sb, wc, sc, prev) ==> ratio_lt(wa, sa, wc, sc, prev),
        ratio_lt(wa, sa, wb, sb, prev) ==> ratio_lt(wa, sa, wc, sc, prev) || ratio_lt(wc, sc, wb, sb, prev),
{
    if let Some(p) = prev {
        if let (Some(x), Some(y), Some(z)) = (wa, wb, wc) {
            if ratio_lt(wa, sa, wb, sb, prev) && ratio_lt(wb, sb, wc, sc, prev) {
                lemma_cross_trans(x - p, sa, y - p, sb, z - p, sc);
            }
            if ratio_lt(wa, sa, wb, sb, prev) {
                lemma_cross_split(x - p, sa, y - p, sb, z - p, sc);
            }
        }
    }
}

/// `ratio_lt` on exact weights.
fn ratio_less(wa: Option<u128>, sa: usize, wb: Option<u128>, sb: usize, prev: Option<u128>) -> (r: bool)
    requires
        sa > 0,
        sb > 0,
    ensures
        r == ratio_lt(w_of(wa), sa as int, w_of(wb), sb as int, w_of(prev)),
{
    match prev {
        None => false,
        Some(p) => match (wa, wb) {
            (Some(x), Some(y)) => {
                if x >= p {
                    if y >= p {
                        wide_less(x - p, sb, y - p, sa)
                    } else {
                        proof {
                            assert((x - p) * sb >= 0) by (nonlinear_arith)
                                requires x >= p, sb > 0;
                            assert((y - p) * sa < 0) by (nonlinear_arith)
                                requires y < p, sa > 0;
                        }
                        false
                    }
                } else {
                    if y >= p {
                        proof {
                            assert((x - p) * sb < 0) by (nonlinear_arith)
                                requires x < p, sb > 0;
                            assert((y - p) * sa >= 0) by (nonlinear_arith)
                                requires y >= p, sa > 0;
                        }
                        true
                    } else {
                        let r = wide_less(p - y, sa, p - x, sb);
                        proof {
                            assert(((x - p) * sb < (y - p) * sa) == ((p - y) * sa < (p - x) * sb)) by (nonlinear_arith);
                        }
                        r
                    }
                }
            },
            (Some(_), None) => true,
            _ => false,
        },
    }
}

proof fn lemma_size_total_push(cs: Seq<(usize, usize, usize)>, c: (usize, usize, usize))
    ensures
        size_total(cs.push(c)) == size_total(cs) + c.2,
{
    assert(cs.push(c).drop_last() =~= cs);
}

proof fn lemma_size_total_update(cs: Seq<(usize, usize, usize)>, i: int, c: (usize, usize, usize))
    requires
        0 <= i < cs.len(),
    ensures
        size_total(cs.update(i, c)) == size_total(cs) - cs[i].2 + c.2,
    decreases cs.len(),
{
    if i == cs.len() - 1 {
        assert(cs.update(i, c).drop_last() =~= cs.drop_last());
    } else {
        lemma_size_total_update(cs.drop_last(), i, c);
        assert(cs.update(i, c).drop_last() =~= cs.drop_last().update(i, c));
    }
}

proof fn lemma_size_total_swap_removed(cs: Seq<(usize, usize, usize)>, i: int)
    requires
        0 <= i < cs.len(),
    ensures
        size_total(swap_removed(cs, i)) == size_total(cs) - cs[i].2,
{
    lemma_size_total_update(cs, i, cs.last());
}

proof fn lemma_size_total_nonneg(cs: Seq<(usize, usize, usize)>)
    ensures
        size_total(cs) >= 0,
    decreases cs.len(),
{
    if cs.len() > 0 {
        lemma_size_total_nonneg(cs.drop_last());
    }
}

proof fn lemma_first_cheapest_unique(
    es: Seq<(usize, usize, Edge)>,
    chosen: Seq<(usize, usize, usize)>,
    rem: Seq<(usize, usize, usize)>,
    i1: int,
    i2: int,
)
    requires
        is_first_cheapest(es, chosen, rem, i1),
        is_first_cheapest(es, chosen, rem, i2),
    ensures
        i1 == i2,
{
    if i1 < i2 {
        assert(cheaper(es, chosen, rem[i2], rem[i1]));
    } else if i2 < i1 {
        assert(cheaper(es, chosen, rem[i1], rem[i2]));
    }
}


/// Cluster-level greedy Pareto search, with the clusters considered in the
/// given order of their ids.
///
/// At each step it adds the remaining cluster whose hub (its first building)
/// joins the tree of the hubs chosen so far at the least marginal cost per
/// building: (new tree weight - previous tree weight) / cluster size, the
/// previous weight being 0 at the first step.  Ties go to the first such
/// cluster in the order of the remaining ones, which swap removal keeps.
/// Returns one solution per step.
#[verifier::spinoff_prover]
pub fn greedy_cluster_pareto_in_order(
    graph: &BuiltGraph,
    clusters_map: &HashMap<usize, Vec<usize>>,
    order: &[usize],
) -> (result: Vec<ClusterSolution>)
    requires
        forall|k: int| 0 <= k < order@.len() ==> clusters_map@.contains_key(#[trigger] order@[k]),
        forall|id: usize| #[trigger] clusters_map@.contains_key(id) ==> clusters_map@[id]@.len() > 0,
        order@.len() >= 2 ==> forall|k: int|
            0 <= k < order@.len() ==> clusters_map@[#[trigger] order@[k]]@[0] < graph_nodes(graph.graph).len(),
        cluster_run_defined(graph_edges(graph.graph), cluster_items(clusters_map@, order@)),
    ensures
        cluster_front_matches(graph_edges(graph.graph), cluster_items(clusters_map@, order@), result@),
{
    let ghost es = graph_edges(graph.graph);
    let ghost items = cluster_items(clusters_map@, order@);
    let ghost nv = graph_nodes(graph.graph).len();
    let n = order.len();
    let mut remaining: Vec<(usize, usize, usize)> = Vec::new();
    let mut k: usize = 0;
    while k < n
        invariant
            k <= n,
            n == order@.len(),
            items == cluster_items(clusters_map@, order@),
            forall|j: int| 0 <= j < order@.len() ==> clusters_map@.contains_key(#[trigger] order@[j]),
            forall|id: usize| #[trigger] clusters_map@.contains_key(id) ==> clusters_map@[id]@.len() > 0,
            remaining@ == items.take(k as int),
            forall|j: int| 0 <= j < k ==> (#[trigger] items[j]).2 > 0,
        decreases n - k,
    {
        let id = order[k];
        proof {
            assert(clusters_map@.contains_key(order@[k as int]));
        }
        let members = match clusters_map.get(&id) {
            Some(v) => v,
            None => {
                proof {
                    assert(false);
                }
                return Vec::new();
            },
        };
        let item = (id, members[0], members.len());
        remaining.push(item);
        proof {
            assert(items.take(k + 1) =~= items.take(k as int).push(item));
            assert(items[k as int].2 > 0);
        }
        k = k + 1;
    }
    proof {
        assert(items.take(n as int) =~= items);
        lemma_size_total_nonneg(items);
    }
    let mut hubs: Vec<usize> = Vec::new();
    let mut ids: Vec<usize> = Vec::new();
    let mut total: usize = 0;
    let mut prev: Option<u128> = Some(0);
    let mut solutions: Vec<ClusterSolution> = Vec::new();
    while remaining.len() > 0
        invariant
            es == graph_edges(graph.graph),
            nv == graph_nodes(graph.graph).len(),
            items == cluster_items(clusters_map@, order@),
            n == items.len(),
            cluster_run_defined(es, items),
            forall|j: int| 0 <= j < items.len() ==> (#[trigger] items[j]).2 > 0,
            n >= 2 ==> forall|j: int| 0 <= j < items.len() ==> (#[trigger] items[j]).1 < nv,
            remaining@ == cluster_state(es, items, solutions@.len() as nat).0,
            hubs@ == hubs_of(cluster_state(es, items, solutions@.len() as nat).1),
            ids@ == ids_of(cluster_state(es, items, solutions@.len() as nat).1),
            total == size_total(cluster_state(es, items, solutions@.len() as nat).1),
            w_of(prev) == prev_weight(es, cluster_state(es, items, solutions@.len() as nat).1),
            size_total(cluster_state(es, items, solutions@.len() as nat).1) + size_total(remaining@) == size_total(items),
            remaining@.len() + solutions@.len() == n,
            hubs@.len() == solutions@.len(),
            forall|j: int| 0 <= j < remaining@.len() ==> (#[trigger] remaining@[j]).2 > 0,
            n >= 2 ==> forall|j: int| 0 <= j < remaining@.len() ==> (#[trigger] remaining@[j]).1 < nv,
            n >= 2 ==> forall|j: int| 0 <= j < hubs@.len() ==> #[trigger] hubs@[j] < nv,
            forall|j: int|
                0 <= j < solutions@.len() ==> {
                    let chosen = cluster_state(es, items, (j + 1) as nat).1;
                    &&& (#[trigger] solutions@[j]).selected_clusters@ == ids_of(chosen)
                    &&& solutions@[j].total_buildings_yield == size_total(chosen)
                    &&& w_of(solutions@[j].tree_weight) == steiner_spec(es, hubs_of(chosen))
                },
        decreases remaining@.len(),
    {
        let ghost st = cluster_state(es, items, solutions@.len() as nat);
        let mut best_i: usize = 0;
        let mut best_w: Option<u128> = None;
        let mut best_size: usize = 1;
        let mut i: usize = 0;
        while i < remaining.len()
            invariant
                es == graph_edges(graph.graph),
                nv == graph_nodes(graph.graph).len(),
                st == cluster_state(es, items, solutions@.len() as nat),
                remaining@ == st.0,
                hubs@ == hubs_of(st.1),
                w_of(prev) == prev_weight(es, st.1),
                i <= remaining@.len(),
                remaining@.len() > 0,
                remaining@.len() + hubs@.len() == n,
                forall|j: int| 0 <= j < remaining@.len() ==> (#[trigger] remaining@[j]).2 > 0,
                n >= 2 ==> forall|j: int| 0 <= j < remaining@.len() ==> (#[trigger] remaining@[j]).1 < nv,
                n >= 2 ==> forall|j: int| 0 <= j < hubs@.len() ==> #[trigger] hubs@[j] < nv,
                best_size > 0,
                i > 0 ==> best_i < i,
                i > 0 ==> w_of(best_w) == hub_trial(es, st.1, remaining@[best_i as int]),
                i > 0 ==> best_size == remaining@[best_i as int].2,
                forall|j: int| 0 <= j < i ==> !cheaper(es, st.1, #[trigger] remaining@[j], remaining@[best_i as int]),
                forall|j: int| 0 <= j < best_i ==> cheaper(es, st.1, remaining@[best_i as int], #[trigger] remaining@[j]),
            decreases remaining@.len() - i,
        {
            let c = remaining[i];
            let mut trial = copied(&hubs);
            trial.push(c.1);
            proof {
                if trial@.len() >= 2 {
                    assert forall|j: int| 0 <= j < trial@.len() implies #[trigger] trial@[j] < nv by {
                        if j < hubs@.len() {
                            assert(trial@[j] == hubs@[j]);
                        }
                    }
                }
            }
            let w = steiner_weight(graph, &trial);
            proof {
                assert(trial@ == hubs_of(st.1).push(c.1));
            }
            let better = i == 0 || ratio_less(w, c.2, best_w, best_size, prev);
            proof {
                if i > 0 {
                    let b = remaining@[best_i as int];
                    if better {
                        assert forall|j: int| 0 <= j < i implies !cheaper(es, st.1, #[trigger] remaining@[j], c) by {
                            lemma_ratio_order(
                                hub_trial(es, st.1, remaining@[j]), remaining@[j].2 as int,
                                hub_trial(es, st.1, c), c.2 as int,
                                hub_trial(es, st.1, b), b.2 as int,
                                prev_weight(es, st.1),
                            );
                        }
                        assert forall|j: int| 0 <= j < i implies cheaper(es, st.1, c, #[trigger] remaining@[j]) by {
                            lemma_ratio_order(
                                hub_trial(es, st.1, c), c.2 as int,
                                hub_trial(es, st.1, b), b.2 as int,
                                hub_trial(es, st.1, remaining@[j]), remaining@[j].2 as int,
                                prev_weight(es, st.1),
                            );
                            if j < best_i {
                                assert(cheaper(es, st.1, b, remaining@[j]));
                            } else {
                                assert(!cheaper(es, st.1, remaining@[j], b));
                            }
                        }
                    }
                }
            }
            if better {
                best_i = i;
                best_w = w;
                best_size = c.2;
            }
            i = i + 1;
        }
        proof {
            assert(is_first_cheapest(es, st.1, st.0, best_i as int));
            lemma_first_cheapest_unique(es, st.1, st.0, best_i as int, choose|x: int| is_first_cheapest(es, st.1, st.0, x));
            lemma_size_total_swap_removed(st.0, best_i as int);
            lemma_size_total_push(st.1, st.0[best_i as int]);
            lemma_size_total_nonneg(swap_removed(st.0, best_i as int));
            assert(hubs_of(st.1.push(st.0[best_i as int])) =~= hubs_of(st.1).push(st.0[best_i as int].1));
            assert(ids_of(st.1.push(st.0[best_i as int])) =~= ids_of(st.1).push(st.0[best_i as int].0));
        }
        let c = remaining.swap_remove(best_i);
        hubs.push(c.1);
        ids.push(c.0);
        total = total + c.2;
        prev = best_w;
        let chosen_ids = copied(&ids);
        solutions.push(ClusterSolution { selected_clusters: chosen_ids, total_buildings_yield: total, tree_weight: best_w });
        proof {
            assert(forall|j: int| 0 <= j < remaining@.len() ==> (#[trigger] remaining@[j]).2 > 0);
            if n >= 2 {
                assert(forall|j: int| 0 <= j < remaining@.len() ==> (#[trigger] remaining@[j]).1 < nv);
            }
        }
    }
    solutions
}


/// Cluster-level greedy Pareto search.
///
/// Instead of evaluating individual buildings, this evaluates entire
/// clusters: `clusters_map` maps each cluster id to its buildings (node
/// indices).  At each step it adds the cluster whose hub (its first building)
/// joins the tree of the hubs chosen so far at the least marginal cost per
/// building.  The clusters are taken in increasing id order, which decides
/// ties: the result is the run of `greedy_cluster_pareto_in_order` on that
/// order.
pub fn greedy_cluster_pareto(graph: &BuiltGraph, clusters_map: &HashMap<usize, Vec<usize>>) -> (result: Vec<ClusterSolution>)
    requires
        forall|id: usize| #[trigger] clusters_map@.contains_key(id) ==> clusters_map@[id]@.len() > 0,
        clusters_map@.dom().len() >= 2 ==> forall|id: usize|
            #[trigger] clusters_map@.contains_key(id) ==> clusters_map@[id]@[0] < graph_nodes(graph.graph).len(),
        forall|order: Seq<usize>|
            #[trigger] is_key_order(order, clusters_map@) && increasing(order) ==> cluster_run_defined(
                graph_edges(graph.graph),
                cluster_items(clusters_map@, order),
            ),
    ensures
        exists|order: Seq<usize>|
            #[trigger] is_key_order(order, clusters_map@) && increasing(order) && cluster_front_matches(
                graph_edges(graph.graph),
                cluster_items(clusters_map@, order),
                result@,
            ),
{
    let order = cluster_ids(clusters_map);
    proof {
        assert(is_key_order(order@, clusters_map@));
        order@.unique_seq_to_set();
        assert forall|k: int| 0 <= k < order@.len() implies clusters_map@.contains_key(#[trigger] order@[k]) by {
            assert(order@.to_set().contains(order@[k]));
        }
    }
    greedy_cluster_pareto_in_order(graph, clusters_map, order.as_slice())
}

/// The increasing order of a map's cluster ids is the only one: two orders
/// that each list every id once, in increasing order, are the same.
pub proof fn law_increasing_order_unique(a: Seq<usize>, b: Seq<usize>, m: Map<usize, Vec<usize>>)
    requires
        is_key_order(a, m),
        increasing(a),
        is_key_order(b, m),
        increasing(b),
    ensures
        a == b,
{
    lemma_increasing_same_set(a, b);
}

/// Two increasing sequences with the same elements are equal.
proof fn lemma_increasing_same_set(a: Seq<usize>, b: Seq<usize>)
    requires
        increasing(a),
        increasing(b),
        a.to_set() == b.to_set(),
    ensures
        a == b,
    decreases a.len(),
{
    if a.len() == 0 {
        if b.len() > 0 {
            assert(b.to_set().contains(b[0]));
        }
        assert(b =~= a);
    } else if b.len() == 0 {
        assert(a.to_set().contains(a[0]));
    } else {
        let la = a.last();
        let lb = b.last();
        assert(a.to_set().contains(la));
        assert(b.to_set().contains(lb));
        assert(b.contains(la));
        assert(a.contains(lb));
        let ka = choose|k: int| 0 <= k < b.len() && b[k] == la;
        let kb = choose|k: int| 0 <= k < a.len() && a[k] == lb;
        if ka < b.len() - 1 {
            assert(b[ka] < b[b.len() - 1]);
        }
        if kb < a.len() - 1 {
            assert(a[kb] < a[a.len() - 1]);
        }
        assert(la == lb);
        let a2 = a.drop_last();
        let b2 = b.drop_last();
        assert(a2.to_set() =~= b2.to_set()) by {
            assert forall|x: usize| a2.to_set().contains(x) implies b2.to_set().contains(x) by {
                let k = choose|k: int| 0 <= k < a2.len() && a2[k] == x;
                assert(a[k] < la);
                assert(a.to_set().contains(x));
                assert(b.contains(x));
                let j = choose|j: int| 0 <= j < b.len() && b[j] == x;
                assert(j != b.len() - 1);
                assert(b2[j] == x);
            }
            assert forall|x: usize| b2.to_set().contains(x) implies a2.to_set().contains(x) by {
                let k = choose|k: int| 0 <= k < b2.len() && b2[k] == x;
                assert(b[k] < lb);
                assert(b.to_set().contains(x));
                assert(a.contains(x));
                let j = choose|j: int| 0 <= j < a.len() && a[j] == x;
                assert(j != a.len() - 1);
                assert(a2[j] == x);
            }
        }
        assert(increasing(a2)) by {
            assert forall|i: int, j: int| 0 <= i < j < a2.len() implies (#[trigger] a2[i]) < (#[trigger] a2[j]) by {
                assert(a[i] < a[j]);
            }
        }
        assert(increasing(b2)) by {
            assert forall|i: int, j: int| 0 <= i < j < b2.len() implies (#[trigger] b2[i]) < (#[trigger] b2[j]) by {
                assert(b[i] < b[j]);
            }
        }
        lemma_increasing_same_set(a2, b2);
        assert(a =~= a2.push(la));
        assert(b =~= b2.push(lb));
    }
}


/// A first cheapest remaining cluster exists among the first `n`.
proof fn lemma_first_cheapest_prefix(
    es: Seq<(usize, usize, Edge)>,
    chosen: Seq<(usize, usize, usize)>,
    rem: Seq<(usize, usize, usize)>,
    n: int,
) -> (i: int)
    requires
        1 <= n <= rem.len(),
        forall|j: int| 0 <= j < rem.len() ==> (#[trigger] rem[j]).2 > 0,
    ensures
        0 <= i < n,
        forall|j: int| 0 <= j < n ==> !cheaper(es, chosen, #[trigger] rem[j], rem[i]),
        forall|j: int| 0 <= j < i ==> cheaper(es, chosen, rem[i], #[trigger] rem[j]),
    decreases n,
{
    if n == 1 {
        0
    } else {
        let b = lemma_first_cheapest_prefix(es, chosen, rem, n - 1);
        let c = rem[n - 1];
        let pw = prev_weight(es, chosen);
        if cheaper(es, chosen, c, rem[b]) {
            assert forall|j: int| 0 <= j < n implies !cheaper(es, chosen, #[trigger] rem[j], c) by {
                lemma_ratio_order(
                    hub_trial(es, chosen, rem[j]), rem[j].2 as int,
                    hub_trial(es, chosen, c), c.2 as int,
                    hub_trial(es, chosen, rem[b]), rem[b].2 as int,
                    pw,
                );
                if j == n - 1 {
                    lemma_ratio_order(
                        hub_trial(es, chosen, c), c.2 as int,
                        hub_trial(es, chosen, c), c.2 as int,
                        hub_trial(es, chosen, c), c.2 as int,
                        pw,
                    );
                }
            }
            assert forall|j: int| 0 <= j < n - 1 implies cheaper(es, chosen, c, #[trigger] rem[j]) by {
                lemma_ratio_order(
                    hub_trial(es, chosen, c), c.2 as int,
                    hub_trial(es, chosen, rem[b]), rem[b].2 as int,
                    hub_trial(es, chosen, rem[j]), rem[j].2 as int,
                    pw,
                );
            }
            n - 1
        } else {
            b
        }
    }
}

/// Law: after `k` greedy steps, with `k` at most the number of clusters, `k`
/// clusters are chosen, each step extends the previous choice by one cluster,
/// and the chosen clusters together with those that remain are the clusters,
/// counted with repetition: after the last step every cluster is chosen
/// exactly once.  The building yield of a choice is the sum of its sizes.
#[verifier::spinoff_prover]
pub proof fn law_cluster_steps(es: Seq<(usize, usize, Edge)>, items: Seq<(usize, usize, usize)>, k: nat)
    requires
        k <= items.len(),
        forall|j: int| 0 <= j < items.len() ==> (#[trigger] items[j]).2 > 0,
    ensures
        cluster_state(es, items, k).1.len() == k,
        cluster_state(es, items, k).0.len() == items.len() - k,
        cluster_state(es, items, k).0.to_multiset().add(cluster_state(es, items, k).1.to_multiset()) == items.to_multiset(),
        k < items.len() ==> cluster_state(es, items, k + 1).1.drop_last() == cluster_state(es, items, k).1,
        k < items.len() ==> size_total(cluster_state(es, items, k + 1).1) == size_total(cluster_state(es, items, k).1)
            + cluster_state(es, items, k + 1).1.last().2,
    decreases k,
{
    broadcast use vstd::seq_lib::group_seq_properties, vstd::multiset::group_multiset_axioms;

    if k == 0 {
        assert(Seq::<(usize, usize, usize)>::empty().to_multiset() =~= vstd::multiset::Multiset::empty());
        assert(items.to_multiset().add(vstd::multiset::Multiset::empty()) =~= items.to_multiset());
    } else {
        law_cluster_steps(es, items, (k - 1) as nat);
        let (rem0, ch0) = cluster_state(es, items, (k - 1) as nat);
        lemma_positive_sizes(items, rem0);
        let b = lemma_first_cheapest_prefix(es, ch0, rem0, rem0.len() as int);
        assert(is_first_cheapest(es, ch0, rem0, b));
        let i = choose|i: int| is_first_cheapest(es, ch0, rem0, i);
        crate::optimizer::lemma_swap_removed_multiset(rem0, i);
        vstd::seq_lib::to_multiset_build(ch0, rem0[i]);
        assert(rem0.to_multiset().count(rem0[i]) > 0);
        assert(swap_removed(rem0, i).to_multiset().add(ch0.push(rem0[i]).to_multiset()) =~= rem0.to_multiset().add(ch0.to_multiset()));
    }
    if k < items.len() {
        let (rem, ch) = cluster_state(es, items, k);
        lemma_positive_sizes(items, rem);
        let b = lemma_first_cheapest_prefix(es, ch, rem, rem.len() as int);
        assert(is_first_cheapest(es, ch, rem, b));
        let i = choose|i: int| is_first_cheapest(es, ch, rem, i);
        assert(cluster_state(es, items, k + 1) == (swap_removed(rem, i), ch.push(rem[i])));
        assert(ch.push(rem[i]).drop_last() =~= ch);
        lemma_size_total_push(ch, rem[i]);
    }
}

/// The hub of the cluster with id `id` among `items`.
pub open spec fn hub_named(items: Seq<(usize, usize, usize)>, id: usize) -> usize {
    items[choose|a: int| 0 <= a < items.len() && items[a].0 == id].1
}

/// The hubs of the clusters with ids `ids` among `items`, in that order.
pub open spec fn hubs_named(items: Seq<(usize, usize, usize)>, ids: Seq<usize>) -> Seq<usize> {
    ids.map_values(|id: usize| hub_named(items, id))
}

/// With distinct ids, a cluster of `items` is found again by its id.
proof fn lemma_hub_named(items: Seq<(usize, usize, usize)>, c: (usize, usize, usize))
    requires
        items.contains(c),
        forall|a: int, b: int| 0 <= a < b < items.len() ==> (#[trigger] items[a]).0 != (#[trigger] items[b]).0,
    ensures
        hub_named(items, c.0) == c.1,
{
    let a = choose|a: int| 0 <= a < items.len() && items[a] == c;
    let a2 = choose|a2: int| 0 <= a2 < items.len() && items[a2].0 == c.0;
    if a < a2 {
        assert(items[a].0 != items[a2].0);
    } else if a2 < a {
        assert(items[a2].0 != items[a].0);
    }
}

/// Law: each greedy step after the first adds the cluster with the least
/// marginal cost per building.  Step `k` extends the choice of step `k - 1`
/// by one cluster `c`; when the weight `p` of the earlier choice is finite,
/// then for every cluster `x` not yet chosen, with `wx` the weight of the
/// earlier hubs and the hub of `x`, and `wc` the new weight: a finite `wx`
/// makes `wc` finite, and then `(wc - p) / size(c) <= (wx - p) / size(x)`.
#[verifier::spinoff_prover]
pub proof fn law_cluster_least_marginal_cost(
    es: Seq<(usize, usize, Edge)>,
    items: Seq<(usize, usize, usize)>,
    result: Seq<ClusterSolution>,
    k: int,
    j: int,
    ci: int,
)
    requires
        cluster_front_matches(es, items, result),
        forall|a: int| 0 <= a < items.len() ==> (#[trigger] items[a]).2 > 0,
        forall|a: int, b: int| 0 <= a < b < items.len() ==> (#[trigger] items[a]).0 != (#[trigger] items[b]).0,
        1 <= k < result.len(),
        0 <= j < items.len(),
        !result[k - 1].selected_clusters@.contains(items[j].0),
        0 <= ci < items.len(),
        items[ci].0 == result[k].selected_clusters@.last(),
        w_of(result[k - 1].tree_weight) is Some,
    ensures
        ({
            let before = result[k - 1].selected_clusters@;
            let p = w_of(result[k - 1].tree_weight)->0;
            let wx = steiner_spec(es, hubs_named(items, before).push(items[j].1));
            let wc = w_of(result[k].tree_weight);
            &&& result[k].selected_clusters@ == before.push(items[ci].0)
            &&& result[k].total_buildings_yield == result[k - 1].total_buildings_yield + items[ci].2
            &&& wc == steiner_spec(es, hubs_named(items, before).push(items[ci].1))
            &&& wx is Some ==> wc is Some
            &&& (wx is Some && wc is Some) ==> (wc->0 - p) * items[j].2 <= (wx->0 - p) * items[ci].2
        }),
{
    broadcast use vstd::seq_lib::group_seq_properties, vstd::multiset::group_multiset_axioms;

    law_cluster_steps(es, items, k as nat);
    let (rem, ch) = cluster_state(es, items, k as nat);
    let ch1 = cluster_state(es, items, (k + 1) as nat).1;
    let before = result[k - 1].selected_clusters@;
    assert(before == ids_of(ch));
    assert(result[k].selected_clusters@ == ids_of(ch1));
    assert(rem.to_multiset().subset_of(items.to_multiset()));
    assert(ch.to_multiset().subset_of(items.to_multiset()));
    lemma_positive_sizes(items, rem);
    let b = lemma_first_cheapest_prefix(es, ch, rem, rem.len() as int);
    assert(is_first_cheapest(es, ch, rem, b));
    let i = choose|i: int| is_first_cheapest(es, ch, rem, i);
    assert(cluster_state(es, items, (k + 1) as nat) == (swap_removed(rem, i), ch.push(rem[i])));
    let c = rem[i];
    assert(ch1 == ch.push(c));
    // the chosen cluster is items[ci]
    assert(rem.to_multiset().count(c) > 0);
    assert(items.to_multiset().count(c) > 0);
    assert(items.contains(c));
    let a = choose|a: int| 0 <= a < items.len() && items[a] == c;
    assert(ids_of(ch1).last() == c.0);
    if a < ci {
        assert(items[a].0 != items[ci].0);
    } else if ci < a {
        assert(items[ci].0 != items[a].0);
    }
    assert(items[ci] == c);
    assert(ids_of(ch1) =~= before.push(items[ci].0));
    // the cluster x is still to choose
    let x = items[j];
    if ch.contains(x) {
        let t = choose|t: int| 0 <= t < ch.len() && ch[t] == x;
        assert(before[t] == x.0);
        assert(false);
    }
    assert(ch.to_multiset().count(x) == 0);
    assert(items.to_multiset().count(x) > 0);
    assert(rem.to_multiset().count(x) > 0);
    assert(rem.contains(x));
    let jj = choose|jj: int| 0 <= jj < rem.len() && rem[jj] == x;
    assert(!cheaper(es, ch, rem[jj], c));
    // the hubs named by the earlier ids are those of the earlier choice
    assert(hubs_named(items, before) =~= hubs_of(ch)) by {
        assert forall|t: int| 0 <= t < ch.len() implies hubs_named(items, before)[t] == hubs_of(ch)[t] by {
            assert(ch.to_multiset().count(ch[t]) > 0);
            assert(items.to_multiset().count(ch[t]) > 0);
            assert(items.contains(ch[t]));
            lemma_hub_named(items, ch[t]);
        }
    }
    assert(hubs_of(ch1) =~= hubs_of(ch).push(c.1));
    assert(prev_weight(es, ch) == steiner_spec(es, hubs_of(ch)));
    lemma_size_total_push(ch, c);
}

/// Law: the first step takes the first cluster of `items`, alone, with weight
/// 0 and its own size as the yield.
pub proof fn law_cluster_first_step(
    es: Seq<(usize, usize, Edge)>,
    items: Seq<(usize, usize, usize)>,
    result: Seq<ClusterSolution>,
)
    requires
        cluster_front_matches(es, items, result),
        forall|a: int| 0 <= a < items.len() ==> (#[trigger] items[a]).2 > 0,
        items.len() > 0,
    ensures
        result[0].selected_clusters@ == seq![items[0].0],
        result[0].total_buildings_yield == items[0].2,
        result[0].tree_weight == Some(0u128),
{
    let ch0 = Seq::<(usize, usize, usize)>::empty();
    assert(cluster_state(es, items, 0) == (items, ch0));
    let b = lemma_first_cheapest_prefix(es, ch0, items, items.len() as int);
    assert(is_first_cheapest(es, ch0, items, b));
    let i = choose|i: int| is_first_cheapest(es, ch0, items, i);
    assert(hubs_of(ch0).push(items[0].1) =~= seq![items[0].1]);
    if i > 0 {
        assert(hubs_of(ch0).push(items[i].1) =~= seq![items[i].1]);
        assert(cheaper(es, ch0, items[i], items[0]));
        assert(false);
    }
    assert(cluster_state(es, items, 1) == (swap_removed(items, i), ch0.push(items[i])));
    assert(ids_of(ch0.push(items[0])) =~= seq![items[0].0]);
    assert(hubs_of(ch0.push(items[0])) =~= seq![items[0].1]);
    lemma_size_total_push(ch0, items[0]);
    assert(size_total(ch0) == 0);
}

/// Every element of a sub-multiset of `items` has a positive size.
proof fn lemma_positive_sizes(items: Seq<(usize, usize, usize)>, rem: Seq<(usize, usize, usize)>)
    requires
        forall|j: int| 0 <= j < items.len() ==> (#[trigger] items[j]).2 > 0,
        rem.to_multiset().subset_of(items.to_multiset()),
    ensures
        forall|j: int| 0 <= j < rem.len() ==> (#[trigger] rem[j]).2 > 0,
{
    broadcast use vstd::seq_lib::group_seq_properties, vstd::multiset::group_multiset_axioms;

    assert forall|j: int| 0 <= j < rem.len() implies (#[trigger] rem[j]).2 > 0 by {
        assert(rem.contains(rem[j]));
        assert(rem.to_multiset().count(rem[j]) > 0);
        assert(items.to_multiset().count(rem[j]) > 0);
        assert(items.contains(rem[j]));
    }
}

/// The solution's tree weight is finite and at most `budget_mm` millimetres
/// per building it yields.
pub open spec fn within_budget(s: ClusterSolution, budget_mm: u128) -> bool {
    match s.tree_weight {
        Some(w) => w <= budget_mm * s.total_buildings_yield,
        None => false,
    }
}

/// The index of the last solution within a budget of `budget_mm`
/// millimetres of tree per building, if any is.
pub fn last_within_budget(solutions: &Vec<ClusterSolution>, budget_mm: u128) -> (r: Option<usize>)
    ensures
        match r {
            Some(i) => {
                &&& i < solutions@.len()
                &&& within_budget(solutions@[i as int], budget_mm)
                &&& forall|j: int| i < j < solutions@.len() ==> !within_budget(#[trigger] solutions@[j], budget_mm)
            },
            None => forall|j: int| 0 <= j < solutions@.len() ==> !within_budget(#[trigger] solutions@[j], budget_mm),
        },
{
    let mut i: usize = solutions.len();
    while i > 0
        invariant
            i <= solutions@.len(),
            forall|j: int| i <= j < solutions@.len() ==> !within_budget(#[trigger] solutions@[j], budget_mm),
        decreases i,
    {
        let s = &solutions[i - 1];
        let ok = match s.tree_weight {
            Some(w) => match budget_mm.checked_mul(s.total_buildings_yield as u128) {
                Some(limit) => w <= limit,
                None => true,
            },
            None => false,
        };
        if ok {
            return Some(i - 1);
        }
        i = i - 1;
    }
    None
}

} // verus!
