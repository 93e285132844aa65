//! Spanning edge lists over a distance matrix, and the minimality of the
//! tree that Prim's algorithm grows.
//!
//! An edge is a pair of node indices; an edge list joins all `n` nodes when
//! every node is reached from node 0 along its edges.  Its weight is the sum
//! of the matrix entries of its edges (`None` is infinite).
use vstd::prelude::*;

use crate::model::Edge;
use crate::optimizer::{
    closure_matrix, is_first_min, law_shortest_symmetric, lemma_first_min_unique, prim_state, prim_weight, shortest,
    steiner_spec, w_add, w_le, w_lt,
};
use crate::walks::{is_distance_from, is_walk, walk_cost};

verus! {

/// Whether edge `e` touches node `x`.
pub open spec fn pe_touches(e: (int, int), x: int) -> bool {
    e.0 == x || e.1 == x
}

/// The end of edge `e` that is not `x` (or `x` itself for a loop).
pub open spec fn pe_other(e: (int, int), x: int) -> int {
    if e.0 == x {
        e.1
    } else {
        e.0
    }
}

/// The node reached from `s` by following the edges of `t` at the indices `p`.
pub open spec fn pw_end(t: Seq<(int, int)>, s: int, p: Seq<int>) -> int
    decreases p.len(),
{
    if p.len() == 0 {
        s
    } else {
        pe_other(t[p.last()], pw_end(t, s, p.drop_last()))
    }
}

/// Each index of `p` is an edge of `t` that touches the node reached before it.
pub open spec fn pw_valid(t: Seq<(int, int)>, s: int, p: Seq<int>) -> bool
    decreases p.len(),
{
    if p.len() == 0 {
        true
    } else {
        &&& pw_valid(t, s, p.drop_last())
        &&& 0 <= p.last() < t.len()
        &&& pe_touches(t[p.last()], pw_end(t, s, p.drop_last()))
    }
}

/// The edges of `t` lead from `s` to `x`.
pub open spec fn linked(t: Seq<(int, int)>, s: int, x: int) -> bool {
    exists|p: Seq<int>| #[trigger] pw_valid(t, s, p) && pw_end(t, s, p) == x
}

/// The edges of `t` stay among the nodes `0..n` and reach every one of them
/// from node 0.
pub open spec fn joins_all(n: int, t: Seq<(int, int)>) -> bool {
    &&& forall|i: int| 0 <= i < t.len() ==> 0 <= (#[trigger] t[i]).0 < n && 0 <= t[i].1 < n
    &&& forall|x: int| 0 <= x < n ==> #[trigger] linked(t, 0, x)
}

/// The weight of an edge in the matrix `m`.
pub open spec fn edge_w(m: Seq<Seq<Option<int>>>, e: (int, int)) -> Option<int> {
    m[e.0][e.1]
}

/// The total weight of the edges of `t`.
pub open spec fn list_weight(m: Seq<Seq<Option<int>>>, t: Seq<(int, int)>) -> Option<int>
    decreases t.len(),
{
    if t.len() == 0 {
        Some(0)
    } else {
        w_add(list_weight(m, t.drop_last()), edge_w(m, t.last()))
    }
}

/// A square matrix.
pub open spec fn is_square(m: Seq<Seq<Option<int>>>) -> bool {
    forall|i: int| 0 <= i < m.len() ==> (#[trigger] m[i]).len() == m.len()
}

/// A square matrix that reads the same both ways, with no negative entry.
pub open spec fn is_distance_matrix(m: Seq<Seq<Option<int>>>) -> bool {
    &&& is_square(m)
    &&& forall|i: int, j: int| 0 <= i < m.len() && 0 <= j < m.len() ==> #[trigger] m[i][j] == m[j][i]
    &&& forall|i: int, j: int|
        0 <= i < m.len() && 0 <= j < m.len() && (#[trigger] m[i][j]) is Some ==> m[i][j]->Some_0 >= 0
}

/// The empty walk.
pub(crate) proof fn lemma_pw_empty(t: Seq<(int, int)>, s: int)
    ensures
        linked(t, s, s),
{
    assert(pw_valid(t, s, Seq::<int>::empty()) && pw_end(t, s, Seq::<int>::empty()) == s);
}

/// Extending a walk by an edge that touches its end.
proof fn lemma_pw_push(t: Seq<(int, int)>, s: int, p: Seq<int>, i: int)
    requires
        pw_valid(t, s, p),
        0 <= i < t.len(),
        pe_touches(t[i], pw_end(t, s, p)),
    ensures
        pw_valid(t, s, p.push(i)),
        pw_end(t, s, p.push(i)) == pe_other(t[i], pw_end(t, s, p)),
{
    assert(p.push(i).drop_last() =~= p);
}

/// Being linked extends along an edge.
pub(crate) proof fn lemma_linked_push(t: Seq<(int, int)>, s: int, x: int, i: int)
    requires
        linked(t, s, x),
        0 <= i < t.len(),
        pe_touches(t[i], x),
    ensures
        linked(t, s, pe_other(t[i], x)),
{
    let p = choose|p: Seq<int>| #[trigger] pw_valid(t, s, p) && pw_end(t, s, p) == x;
    lemma_pw_push(t, s, p, i);
}

/// A walk along the edges of `t` is a walk along any list that starts with `t`.
proof fn lemma_pw_prefix(t: Seq<(int, int)>, t2: Seq<(int, int)>, s: int, p: Seq<int>)
    requires
        pw_valid(t, s, p),
        t.len() <= t2.len(),
        forall|i: int| 0 <= i < t.len() ==> #[trigger] t2[i] == t[i],
    ensures
        pw_valid(t2, s, p),
        pw_end(t2, s, p) == pw_end(t, s, p),
    decreases p.len(),
{
    if p.len() > 0 {
        lemma_pw_prefix(t, t2, s, p.drop_last());
    }
}

/// Being linked carries over to any list that starts with `t`.
pub(crate) proof fn lemma_linked_prefix(t: Seq<(int, int)>, t2: Seq<(int, int)>, s: int, x: int)
    requires
        linked(t, s, x),
        t.len() <= t2.len(),
        forall|i: int| 0 <= i < t.len() ==> #[trigger] t2[i] == t[i],
    ensures
        linked(t2, s, x),
{
    let p = choose|p: Seq<int>| #[trigger] pw_valid(t, s, p) && pw_end(t, s, p) == x;
    lemma_pw_prefix(t, t2, s, p);
}

/// A property that holds at both ends or at neither of each edge of `t` but
/// the one at `skip` holds at both ends or at neither of a walk that avoids
/// `skip`.
proof fn lemma_closed_along(t: Seq<(int, int)>, r: spec_fn(int) -> bool, skip: int, s: int, p: Seq<int>)
    requires
        pw_valid(t, s, p),
        forall|j: int| 0 <= j < p.len() ==> #[trigger] p[j] != skip,
        forall|i: int| 0 <= i < t.len() && i != skip ==> (r(#[trigger] t[i].0) <==> r(t[i].1)),
    ensures
        r(s) <==> r(pw_end(t, s, p)),
    decreases p.len(),
{
    if p.len() > 0 {
        let q = p.drop_last();
        assert forall|j: int| 0 <= j < q.len() implies #[trigger] q[j] != skip by {
            assert(q[j] == p[j]);
        }
        lemma_closed_along(t, r, skip, s, q);
        assert(p[p.len() - 1] != skip);
        let e = t[p.last()];
        assert(r(e.0) <==> r(e.1));
    }
}

/// A walk that starts inside the node set `in_s` and ends outside it crosses
/// out of it along some edge `t[fi]`, whose outer end `q` is linked to the
/// walk's end along edges that stay outside.
proof fn lemma_crossing(t: Seq<(int, int)>, in_s: spec_fn(int) -> bool, s: int, p: Seq<int>) -> (res: (int, int, Seq<int>))
    requires
        pw_valid(t, s, p),
        in_s(s),
        !in_s(pw_end(t, s, p)),
    ensures
        0 <= res.0 < t.len(),
        (in_s(t[res.0].0) && !in_s(t[res.0].1) && res.1 == t[res.0].1) || (in_s(t[res.0].1) && !in_s(t[res.0].0)
            && res.1 == t[res.0].0),
        pw_valid(t, res.1, res.2),
        pw_end(t, res.1, res.2) == pw_end(t, s, p),
        forall|j: int| 0 <= j < res.2.len() ==> !in_s(#[trigger] t[res.2[j]].0) && !in_s(t[res.2[j]].1),
    decreases p.len(),
{
    let q = p.drop_last();
    let g = p.last();
    let y = pw_end(t, s, q);
    let x = pw_end(t, s, p);
    if in_s(y) {
        lemma_pw_empty(t, x);
        assert(pw_valid(t, x, Seq::<int>::empty()));
        (g, x, Seq::<int>::empty())
    } else {
        let (fi, c, p2) = lemma_crossing(t, in_s, s, q);
        lemma_pw_push(t, c, p2, g);
        let p3 = p2.push(g);
        assert forall|j: int| 0 <= j < p3.len() implies !in_s(#[trigger] t[p3[j]].0) && !in_s(t[p3[j]].1) by {
            if j < p2.len() {
                assert(p3[j] == p2[j]);
            }
        }
        (fi, c, p3)
    }
}

/// Every index of a walk is an edge of the list.
proof fn lemma_pw_indices(t: Seq<(int, int)>, s: int, p: Seq<int>)
    requires
        pw_valid(t, s, p),
    ensures
        forall|j: int| 0 <= j < p.len() ==> 0 <= #[trigger] p[j] < t.len(),
    decreases p.len(),
{
    if p.len() > 0 {
        lemma_pw_indices(t, s, p.drop_last());
        assert forall|j: int| 0 <= j < p.len() implies 0 <= #[trigger] p[j] < t.len() by {
            if j < p.len() - 1 {
                assert(p[j] == p.drop_last()[j]);
            }
        }
    }
}

/// The nodes in the tree.
pub open spec fn tree_set(tr: Seq<bool>, n: int) -> Set<int> {
    Set::new(|v: int| 0 <= v < n && tr[v])
}

/// The node that Prim's algorithm takes in the step after `k` steps.
pub open spec fn prim_next(m: Seq<Seq<Option<int>>>, k: nat) -> int {
    choose|u: int| is_first_min(prim_state(m, k).0, prim_state(m, k).1, u)
}

/// A tree node through which the node taken after `k` steps gets its key.
pub open spec fn prim_link(m: Seq<Seq<Option<int>>>, k: nat) -> int {
    let st = prim_state(m, k);
    let u = prim_next(m, k);
    if exists|w: int| 0 <= w < m.len() && st.0[w] && m[w][u] == st.1[u] {
        choose|w: int| 0 <= w < m.len() && st.0[w] && m[w][u] == st.1[u]
    } else {
        0
    }
}

/// The edges of the tree that Prim's algorithm has grown after `k` steps.
pub open spec fn prim_edges(m: Seq<Seq<Option<int>>>, k: nat) -> Seq<(int, int)>
    decreases k,
{
    if k <= 1 {
        Seq::empty()
    } else {
        prim_edges(m, (k - 1) as nat).push((prim_link(m, (k - 1) as nat), prim_next(m, (k - 1) as nat)))
    }
}

/// What holds of Prim's state after `k >= 1` steps: `k` nodes are in the tree,
/// node 0 among them; the key of a node outside is its least distance from
/// the tree, reached through a tree node unless infinite; the total is the
/// weight of the tree's edges, which join every tree node to node 0.
#[verifier::opaque]
pub open spec fn prim_inv(m: Seq<Seq<Option<int>>>, k: nat) -> bool {
    let n = m.len() as int;
    let st = prim_state(m, k);
    let tr = st.0;
    let key = st.1;
    let e = prim_edges(m, k);
    &&& tr.len() == n
    &&& key.len() == n
    &&& tr[0]
    &&& tree_set(tr, n).finite()
    &&& tree_set(tr, n).len() == k
    &&& forall|v: int, w: int| 0 <= v < n && !tr[v] && 0 <= w < n && tr[w] ==> w_le(#[trigger] key[v], #[trigger] m[w][v])
    &&& forall|v: int|
        0 <= v < n && !tr[v] && (#[trigger] key[v]) is Some ==> exists|w: int| 0 <= w < n && tr[w] && m[w][v] == key[v]
    &&& st.2 == list_weight(m, e)
    &&& forall|i: int|
        0 <= i < e.len() ==> 0 <= (#[trigger] e[i]).0 < n && 0 <= e[i].1 < n && tr[e[i].0] && tr[e[i].1]
    &&& forall|v: int| 0 <= v < n && #[trigger] tr[v] ==> linked(e, 0, v)
}

/// Among the nodes outside the tree below `j`, one is first with the least key.
proof fn lemma_first_min_below(tr: Seq<bool>, key: Seq<Option<int>>, j: int) -> (b: int)
    requires
        0 <= j <= tr.len(),
        exists|x: int| 0 <= x < j && !tr[x],
    ensures
        0 <= b < j,
        !tr[b],
        forall|x: int| 0 <= x < j && !tr[x] ==> !w_lt(#[trigger] key[x], key[b]),
        forall|x: int| 0 <= x < b && !tr[x] ==> w_lt(key[b], #[trigger] key[x]),
    decreases j,
{
    if exists|x: int| 0 <= x < j - 1 && !tr[x] {
        let b1 = lemma_first_min_below(tr, key, j - 1);
        if !tr[j - 1] && w_lt(key[j - 1], key[b1]) {
            j - 1
        } else {
            b1
        }
    } else {
        j - 1
    }
}

/// The first node outside the tree with the least key exists while some node
/// is outside.
proof fn lemma_first_min_exists(tr: Seq<bool>, key: Seq<Option<int>>)
    requires
        exists|x: int| 0 <= x < tr.len() && !tr[x],
    ensures
        exists|u: int| is_first_min(tr, key, u),
{
    let b = lemma_first_min_below(tr, key, tr.len() as int);
    assert(is_first_min(tr, key, b));
}

/// The state after one step: node 0 alone in the tree.
proof fn lemma_prim_first(m: Seq<Seq<Option<int>>>)
    requires
        is_square(m),
        m.len() >= 1,
    ensures
        prim_inv(m, 1),
        prim_next(m, 0) == 0,
{
    reveal(prim_inv);
    let n = m.len() as int;
    let st0 = prim_state(m, 0);
    assert(is_first_min(st0.0, st0.1, 0));
    lemma_first_min_unique(st0.0, st0.1, 0, prim_next(m, 0));
    let st = prim_state(m, 1);
    assert(tree_set(st.0, n) =~= set![0int]);
    lemma_pw_empty(prim_edges(m, 1), 0);
    assert forall|v: int| 0 <= v < n && #[trigger] st.0[v] implies linked(prim_edges(m, 1), 0, v) by {
        assert(v == 0);
    }
    assert forall|v: int| 0 <= v < n && !st.0[v] && (#[trigger] st.1[v]) is Some implies exists|w: int|
        0 <= w < n && st.0[w] && m[w][v] == st.1[v] by {
        assert(st.0[0] && m[0][v] == st.1[v]);
    }
}

/// One more step keeps the invariant; the node taken is the first outside
/// the tree with the least key, and it is linked through a tree node at the
/// distance of its key.
proof fn lemma_prim_step(m: Seq<Seq<Option<int>>>, k: nat)
    requires
        is_square(m),
        1 <= k < m.len(),
        prim_inv(m, k),
    ensures
        is_first_min(prim_state(m, k).0, prim_state(m, k).1, prim_next(m, k)),
        0 <= prim_link(m, k) < m.len(),
        prim_state(m, k).0[prim_link(m, k)],
        m[prim_link(m, k)][prim_next(m, k)] == prim_state(m, k).1[prim_next(m, k)],
        prim_inv(m, k + 1),
{
    reveal(prim_inv);
    let n = m.len() as int;
    let st = prim_state(m, k);
    let tr = st.0;
    let key = st.1;
    let e = prim_edges(m, k);
    if forall|x: int| 0 <= x < n ==> tr[x] {
        assert(tree_set(tr, n) =~= vstd::set_lib::set_int_range(0, n));
        vstd::set_lib::lemma_int_range(0, n);
    }
    lemma_first_min_exists(tr, key);
    let u = prim_next(m, k);
    assert(is_first_min(tr, key, u));
    let w0 = prim_link(m, k);
    if !(exists|w: int| 0 <= w < n && tr[w] && m[w][u] == key[u]) {
        assert(key[u] is None);
        assert(w_le(key[u], m[0][u]));
        assert(m[0][u] == key[u]);
    }
    assert(0 <= w0 < n && tr[w0] && m[w0][u] == key[u]);
    let st2 = prim_state(m, k + 1);
    let tr2 = st2.0;
    let key2 = st2.1;
    let e2 = prim_edges(m, k + 1);
    assert(e2 == e.push((w0, u)));
    assert(tr2 == tr.update(u, true));
    assert(tree_set(tr2, n) =~= tree_set(tr, n).insert(u));
    assert(e.push((w0, u)).drop_last() =~= e);
    assert(st2.2 == list_weight(m, e2));
    assert forall|i: int| 0 <= i < e2.len() implies 0 <= (#[trigger] e2[i]).0 < n && 0 <= e2[i].1 < n && tr2[e2[i].0]
        && tr2[e2[i].1] by {
        if i < e.len() {
            assert(e2[i] == e[i]);
        }
    }
    assert forall|v: int| 0 <= v < n && #[trigger] tr2[v] implies linked(e2, 0, v) by {
        lemma_linked_prefix(e, e2, 0, w0);
        if v == u {
            lemma_linked_push(e2, 0, w0, e.len() as int);
        } else {
            lemma_linked_prefix(e, e2, 0, v);
        }
    }
    assert forall|v: int, w: int| 0 <= v < n && !tr2[v] && 0 <= w < n && tr2[w] implies w_le(#[trigger] key2[v], #[trigger] m[w][v]) by {
        if w != u {
            assert(w_le(key[v], m[w][v]));
        }
    }
    assert forall|v: int| 0 <= v < n && !tr2[v] && (#[trigger] key2[v]) is Some implies exists|w: int|
        0 <= w < n && tr2[w] && m[w][v] == key2[v] by {
        if key2[v] == m[u][v] {
            assert(tr2[u]);
        } else {
            let w = choose|w: int| 0 <= w < n && tr[w] && m[w][v] == key[v];
            assert(tr2[w]);
        }
    }
}

/// The invariant holds after every number of steps from 1 to `n`.
proof fn lemma_prim_inv(m: Seq<Seq<Option<int>>>, k: nat)
    requires
        is_square(m),
        1 <= k <= m.len(),
    ensures
        prim_inv(m, k),
    decreases k,
{
    if k == 1 {
        lemma_prim_first(m);
    } else {
        lemma_prim_inv(m, (k - 1) as nat);
        lemma_prim_step(m, (k - 1) as nat);
    }
}

/// The weight of two lists one after the other.
pub(crate) proof fn lemma_weight_concat(m: Seq<Seq<Option<int>>>, a: Seq<(int, int)>, b: Seq<(int, int)>)
    ensures
        list_weight(m, a + b) == w_add(list_weight(m, a), list_weight(m, b)),
    decreases b.len(),
{
    if b.len() == 0 {
        assert(a + b =~= a);
    } else {
        lemma_weight_concat(m, a, b.drop_last());
        assert((a + b).drop_last() =~= a + b.drop_last());
        assert((a + b).last() == b.last());
    }
}

/// The weight of a list is that of the list without its `r`th edge plus that edge's.
proof fn lemma_weight_remove(m: Seq<Seq<Option<int>>>, t: Seq<(int, int)>, r: int)
    requires
        0 <= r < t.len(),
    ensures
        list_weight(m, t) == w_add(list_weight(m, t.remove(r)), edge_w(m, t[r])),
    decreases t.len(),
{
    if r == t.len() - 1 {
        assert(t.remove(r) =~= t.drop_last());
    } else {
        lemma_weight_remove(m, t.drop_last(), r);
        assert(t.remove(r).drop_last() =~= t.drop_last().remove(r));
        assert(t.remove(r).last() == t.last());
        assert(t.drop_last()[r] == t[r]);
    }
}

/// With no negative entries, a list of edges inside the matrix weighs at
/// least nothing.
proof fn lemma_weight_nonneg(m: Seq<Seq<Option<int>>>, t: Seq<(int, int)>)
    requires
        is_distance_matrix(m),
        forall|i: int| 0 <= i < t.len() ==> 0 <= (#[trigger] t[i]).0 < m.len() && 0 <= t[i].1 < m.len(),
    ensures
        w_le(Some(0), list_weight(m, t)),
    decreases t.len(),
{
    if t.len() > 0 {
        assert forall|i: int| 0 <= i < t.drop_last().len() implies 0 <= (#[trigger] t.drop_last()[i]).0 < m.len()
            && 0 <= t.drop_last()[i].1 < m.len() by {
            assert(t.drop_last()[i] == t[i]);
        }
        lemma_weight_nonneg(m, t.drop_last());
        assert(0 <= t.last().0 < m.len() && 0 <= t.last().1 < m.len());
    }
}

/// `t2` holds every edge of `t` but the one at `fi`.
pub open spec fn holds_all_but(t: Seq<(int, int)>, t2: Seq<(int, int)>, fi: int) -> bool {
    forall|i: int|
        #![trigger t[i]]
        0 <= i < t.len() && i != fi ==> exists|j: int| 0 <= j < t2.len() && #[trigger] t2[j] == t[i]
}

/// If `t2` holds every edge of `t` but the one at `fi`, being reached from
/// node 0 in `t2` holds at both ends or at neither of each of those edges.
proof fn lemma_closed_except(t: Seq<(int, int)>, t2: Seq<(int, int)>, fi: int)
    requires
        holds_all_but(t, t2, fi),
    ensures
        forall|i: int| 0 <= i < t.len() && i != fi ==> (linked(t2, 0, #[trigger] t[i].0) <==> linked(t2, 0, t[i].1)),
{
    assert forall|i: int| 0 <= i < t.len() && i != fi implies (linked(t2, 0, #[trigger] t[i].0) <==> linked(t2, 0, t[i].1)) by {
        let j = choose|j: int| 0 <= j < t2.len() && #[trigger] t2[j] == t[i];
        if linked(t2, 0, t[i].0) {
            lemma_linked_push(t2, 0, t[i].0, j);
        }
        if linked(t2, 0, t[i].1) {
            lemma_linked_push(t2, 0, t[i].1, j);
        }
    }
}

/// If `t2` holds every edge of `t` but the one at `fi` and reaches both ends
/// of that one from node 0, it reaches every node that `t` reaches.
proof fn lemma_reaches_again(n: int, t: Seq<(int, int)>, t2: Seq<(int, int)>, fi: int)
    requires
        0 <= fi < t.len(),
        joins_all(n, t),
        forall|i: int| 0 <= i < t2.len() ==> 0 <= (#[trigger] t2[i]).0 < n && 0 <= t2[i].1 < n,
        forall|i: int| 0 <= i < t.len() && i != fi ==> (linked(t2, 0, #[trigger] t[i].0) <==> linked(t2, 0, t[i].1)),
        linked(t2, 0, t[fi].0),
        linked(t2, 0, t[fi].1),
    ensures
        joins_all(n, t2),
{
    let reach = |x: int| linked(t2, 0, x);
    lemma_pw_empty(t2, 0);
    assert forall|i: int| 0 <= i < t.len() && i != -1 implies (reach(#[trigger] t[i].0) <==> reach(t[i].1)) by {
        if i != fi {
            assert(linked(t2, 0, t[i].0) <==> linked(t2, 0, t[i].1));
        }
    }
    assert forall|x: int| 0 <= x < n implies #[trigger] linked(t2, 0, x) by {
        assert(linked(t, 0, x));
        let px = choose|px: Seq<int>| #[trigger] pw_valid(t, 0, px) && pw_end(t, 0, px) == x;
        lemma_pw_indices(t, 0, px);
        lemma_closed_along(t, reach, -1, 0, px);
    }
}

/// Trading the edge `rest[r]` for a lighter or equal `ne` after the prefix
/// `e` weighs no more.
proof fn lemma_trade_weight(
    m: Seq<Seq<Option<int>>>,
    e: Seq<(int, int)>,
    ne: (int, int),
    rest: Seq<(int, int)>,
    r: int,
)
    requires
        0 <= r < rest.len(),
        w_le(edge_w(m, ne), edge_w(m, rest[r])),
    ensures
        w_le(list_weight(m, e.push(ne) + rest.remove(r)), list_weight(m, e + rest)),
{
    lemma_weight_concat(m, e, rest);
    lemma_weight_remove(m, rest, r);
    lemma_weight_concat(m, e.push(ne), rest.remove(r));
    assert(e.push(ne).drop_last() =~= e);
}

/// A walk in a list that joins all nodes and starts with the tree after `k`
/// steps leaves the tree along an edge `t[fi]` past the tree's edges, no
/// lighter than the next tree edge, and the walk's outer part links that
/// edge's outer end `q` to the next tree node.
proof fn lemma_exchange_edge(m: Seq<Seq<Option<int>>>, k: nat, t: Seq<(int, int)>) -> (res: (int, int, Seq<int>))
    requires
        is_distance_matrix(m),
        1 <= k < m.len(),
        prim_inv(m, k),
        joins_all(m.len() as int, t),
        prim_edges(m, k).len() <= t.len(),
        forall|i: int| 0 <= i < prim_edges(m, k).len() ==> #[trigger] t[i] == prim_edges(m, k)[i],
    ensures
        prim_edges(m, k).len() <= res.0 < t.len(),
        w_le(edge_w(m, (prim_link(m, k), prim_next(m, k))), edge_w(m, t[res.0])),
        prim_state(m, k).0[t[res.0].0] || prim_state(m, k).0[t[res.0].1],
        res.1 == t[res.0].0 || res.1 == t[res.0].1,
        !prim_state(m, k).0[res.1],
        pw_valid(t, res.1, res.2),
        pw_end(t, res.1, res.2) == prim_next(m, k),
        forall|j: int| 0 <= j < res.2.len() ==> #[trigger] res.2[j] != res.0,
{
    reveal(prim_inv);
    let n = m.len() as int;
    let st = prim_state(m, k);
    let tr = st.0;
    let key = st.1;
    let e = prim_edges(m, k);
    lemma_prim_step(m, k);
    let u = prim_next(m, k);
    let w0 = prim_link(m, k);
    let in_s = |x: int| 0 <= x < n && tr[x];
    assert(linked(t, 0, u));
    let p = choose|p: Seq<int>| #[trigger] pw_valid(t, 0, p) && pw_end(t, 0, p) == u;
    let (fi, q, p2) = lemma_crossing(t, in_s, 0, p);
    let f = t[fi];
    let c = if in_s(f.0) {
        f.0
    } else {
        f.1
    };
    assert(0 <= f.0 < n && 0 <= f.1 < n);
    if fi < e.len() {
        assert(t[fi] == e[fi]);
        assert(false);
    }
    assert(!tr[q] && 0 <= q < n);
    assert(!w_lt(key[q], key[u]));
    assert(w_le(key[q], m[c][q]));
    assert(edge_w(m, f) == m[c][q]);
    assert forall|j: int| 0 <= j < p2.len() implies #[trigger] p2[j] != fi by {
        if p2[j] == fi {
            assert(!in_s(t[p2[j]].0));
            assert(!in_s(t[p2[j]].1));
        }
    }
    (fi, q, p2)
}

/// The list `t` with its prefix `pre` followed by `ne`, and its edge at `fi`
/// left out.
#[verifier::opaque]
pub open spec fn traded(t: Seq<(int, int)>, pre: Seq<(int, int)>, ne: (int, int), fi: int) -> Seq<(int, int)> {
    pre.push(ne) + t.subrange(pre.len() as int, t.len() as int).remove(fi - pre.len())
}

/// The entries of a traded list: the prefix, then `ne`, then the edges from
/// the end of the prefix on, one place later, up to `fi`, then the rest in
/// place.
proof fn lemma_traded_at(t: Seq<(int, int)>, pre: Seq<(int, int)>, ne: (int, int), fi: int, i: int)
    requires
        pre.len() <= fi < t.len(),
        0 <= i < t.len(),
    ensures
        traded(t, pre, ne, fi).len() == t.len(),
        traded(t, pre, ne, fi)[i] == if i < pre.len() {
            pre[i]
        } else if i == pre.len() {
            ne
        } else if i <= fi {
            t[i - 1]
        } else {
            t[i]
        },
{
    reveal(traded);
}

/// What trading an edge keeps: every other edge of `t`, the nodes' range and
/// the extended prefix.
proof fn lemma_traded(n: int, t: Seq<(int, int)>, pre: Seq<(int, int)>, ne: (int, int), fi: int)
    requires
        pre.len() <= fi < t.len(),
        forall|i: int| 0 <= i < pre.len() ==> #[trigger] t[i] == pre[i],
        forall|i: int| 0 <= i < t.len() ==> 0 <= (#[trigger] t[i]).0 < n && 0 <= t[i].1 < n,
        0 <= ne.0 < n,
        0 <= ne.1 < n,
    ensures
        holds_all_but(t, traded(t, pre, ne, fi), fi),
        forall|i: int|
            0 <= i < traded(t, pre, ne, fi).len() ==> 0 <= (#[trigger] traded(t, pre, ne, fi)[i]).0 < n
                && 0 <= traded(t, pre, ne, fi)[i].1 < n,
        pre.len() + 1 <= traded(t, pre, ne, fi).len(),
        forall|i: int| 0 <= i < pre.len() + 1 ==> #[trigger] traded(t, pre, ne, fi)[i] == pre.push(ne)[i],
{
    let t2 = traded(t, pre, ne, fi);
    lemma_traded_at(t, pre, ne, fi, 0);
    assert forall|i: int| #![trigger t[i]] 0 <= i < t.len() && i != fi implies exists|j: int|
        0 <= j < t2.len() && #[trigger] t2[j] == t[i] by {
        if i < pre.len() {
            lemma_traded_at(t, pre, ne, fi, i);
        } else if i < fi {
            lemma_traded_at(t, pre, ne, fi, i + 1);
        } else {
            lemma_traded_at(t, pre, ne, fi, i);
        }
    }
    assert forall|i: int| 0 <= i < t2.len() implies 0 <= (#[trigger] t2[i]).0 < n && 0 <= t2[i].1 < n by {
        lemma_traded_at(t, pre, ne, fi, i);
        if i < pre.len() {
            assert(t[i] == pre[i]);
        } else if pre.len() < i <= fi {
            assert(0 <= t[i - 1].0 < n && 0 <= t[i - 1].1 < n);
        } else if i > fi {
            assert(0 <= t[i].0 < n && 0 <= t[i].1 < n);
        }
    }
    assert forall|i: int| 0 <= i < pre.len() + 1 implies #[trigger] t2[i] == pre.push(ne)[i] by {
        lemma_traded_at(t, pre, ne, fi, i);
    }
}

/// The tree's edges stay among the nodes and reach each tree node from node 0.
proof fn lemma_tree_facts(m: Seq<Seq<Option<int>>>, k: nat, v: int)
    requires
        prim_inv(m, k),
    ensures
        forall|i: int|
            0 <= i < prim_edges(m, k).len() ==> 0 <= (#[trigger] prim_edges(m, k)[i]).0 < m.len() && 0 <= prim_edges(
                m,
                k,
            )[i].1 < m.len(),
        0 <= v < m.len() && prim_state(m, k).0[v] ==> linked(prim_edges(m, k), 0, v),
{
    reveal(prim_inv);
}

/// After the trade, every node is still reached from node 0.
#[verifier::spinoff_prover]
proof fn lemma_exchange_links(m: Seq<Seq<Option<int>>>, k: nat, t: Seq<(int, int)>, fi: int, q: int, p2: Seq<int>)
    requires
        is_distance_matrix(m),
        1 <= k < m.len(),
        prim_inv(m, k),
        joins_all(m.len() as int, t),
        prim_edges(m, k).len() <= fi < t.len(),
        forall|i: int| 0 <= i < prim_edges(m, k).len() ==> #[trigger] t[i] == prim_edges(m, k)[i],
        0 <= prim_link(m, k) < m.len(),
        prim_state(m, k).0[prim_link(m, k)],
        prim_link(m, k) != prim_next(m, k),
        0 <= prim_next(m, k) < m.len(),
        prim_state(m, k).0[t[fi].0] || prim_state(m, k).0[t[fi].1],
        q == t[fi].0 || q == t[fi].1,
        !prim_state(m, k).0[q],
        pw_valid(t, q, p2),
        pw_end(t, q, p2) == prim_next(m, k),
        forall|j: int| 0 <= j < p2.len() ==> #[trigger] p2[j] != fi,
    ensures
        joins_all(m.len() as int, traded(t, prim_edges(m, k), (prim_link(m, k), prim_next(m, k)), fi)),
{
    let n = m.len() as int;
    let e = prim_edges(m, k);
    let w0 = prim_link(m, k);
    let u = prim_next(m, k);
    let ne = (w0, u);
    let f = t[fi];
    let t2 = traded(t, e, ne, fi);
    lemma_tree_facts(m, k, w0);
    lemma_traded(n, t, e, ne, fi);
    lemma_closed_except(t, t2, fi);
    lemma_linked_prefix(e, t2, 0, w0);
    lemma_linked_push(t2, 0, w0, e.len() as int);
    let reach = |x: int| linked(t2, 0, x);
    lemma_closed_along(t, reach, fi, q, p2);
    let c = if prim_state(m, k).0[f.0] {
        f.0
    } else {
        f.1
    };
    lemma_tree_facts(m, k, c);
    lemma_linked_prefix(e, t2, 0, c);
    lemma_reaches_again(n, t, t2, fi);
}

/// The exchange step: a list that joins all nodes and starts with the tree
/// after `k` steps can trade one of its other edges for the next tree edge,
/// and still join all nodes at no greater weight.
proof fn lemma_exchange(m: Seq<Seq<Option<int>>>, k: nat, t: Seq<(int, int)>) -> (t2: Seq<(int, int)>)
    requires
        is_distance_matrix(m),
        1 <= k < m.len(),
        prim_inv(m, k),
        joins_all(m.len() as int, t),
        prim_edges(m, k).len() <= t.len(),
        forall|i: int| 0 <= i < prim_edges(m, k).len() ==> #[trigger] t[i] == prim_edges(m, k)[i],
    ensures
        joins_all(m.len() as int, t2),
        prim_edges(m, k + 1).len() <= t2.len(),
        forall|i: int| 0 <= i < prim_edges(m, k + 1).len() ==> #[trigger] t2[i] == prim_edges(m, k + 1)[i],
        w_le(list_weight(m, t2), list_weight(m, t)),
{
    let n = m.len() as int;
    let e = prim_edges(m, k);
    lemma_prim_step(m, k);
    let u = prim_next(m, k);
    let w0 = prim_link(m, k);
    let ne = (w0, u);
    let (fi, q, p2) = lemma_exchange_edge(m, k, t);
    lemma_tree_facts(m, k, u);
    assert(w0 != u) by {
        reveal(prim_inv);
    }
    lemma_exchange_links(m, k, t, fi, q, p2);
    let rest = t.subrange(e.len() as int, t.len() as int);
    assert(prim_edges(m, k + 1) == e.push(ne));
    assert(t =~= e + rest);
    assert(rest[fi - e.len()] == t[fi]);
    lemma_trade_weight(m, e, ne, rest, fi - e.len());
    lemma_traded(n, t, e, ne, fi);
    assert(traded(t, e, ne, fi) == e.push(ne) + rest.remove(fi - e.len())) by {
        reveal(traded);
    }
    traded(t, e, ne, fi)
}

/// Prim's tree weighs no more than any list that joins all nodes and starts
/// with the tree after `k` steps.
proof fn lemma_prim_below(m: Seq<Seq<Option<int>>>, k: nat, t: Seq<(int, int)>)
    requires
        is_distance_matrix(m),
        1 <= k <= m.len(),
        joins_all(m.len() as int, t),
        prim_edges(m, k).len() <= t.len(),
        forall|i: int| 0 <= i < prim_edges(m, k).len() ==> #[trigger] t[i] == prim_edges(m, k)[i],
    ensures
        w_le(list_weight(m, prim_edges(m, m.len() as nat)), list_weight(m, t)),
    decreases m.len() - k,
{
    lemma_prim_inv(m, k);
    if k == m.len() {
        let e = prim_edges(m, k);
        let rest = t.subrange(e.len() as int, t.len() as int);
        assert(t =~= e + rest);
        lemma_weight_concat(m, e, rest);
        assert forall|i: int| 0 <= i < rest.len() implies 0 <= (#[trigger] rest[i]).0 < m.len() && 0 <= rest[i].1 < m.len() by {
            assert(rest[i] == t[e.len() + i]);
        }
        lemma_weight_nonneg(m, rest);
    } else {
        let t2 = lemma_exchange(m, k, t);
        lemma_prim_below(m, k + 1, t2);
    }
}

/// Law: the weight that Prim's algorithm finds on a distance matrix is the
/// least weight of any list of edges that joins all its nodes: the weight of
/// a minimum spanning tree.
pub proof fn law_prim_least(m: Seq<Seq<Option<int>>>, t: Seq<(int, int)>)
    requires
        is_distance_matrix(m),
        joins_all(m.len() as int, t),
    ensures
        w_le(prim_weight(m), list_weight(m, t)),
{
    reveal(prim_inv);
    lemma_weight_nonneg(m, t);
    if m.len() >= 2 {
        lemma_prim_inv(m, m.len() as nat);
        lemma_prim_below(m, 1, t);
    }
}

/// Law: the edges of Prim's tree join all nodes of the matrix and weigh what
/// the algorithm finds.
pub proof fn law_prim_spans(m: Seq<Seq<Option<int>>>)
    requires
        is_square(m),
    ensures
        joins_all(m.len() as int, prim_edges(m, m.len() as nat)),
        list_weight(m, prim_edges(m, m.len() as nat)) == prim_weight(m),
{
    reveal(prim_inv);
    let n = m.len() as int;
    let e = prim_edges(m, n as nat);
    if n < 2 {
        assert(e =~= Seq::<(int, int)>::empty());
        lemma_pw_empty(e, 0);
        assert forall|x: int| 0 <= x < n implies #[trigger] linked(e, 0, x) by {
            assert(x == 0);
        }
    } else {
        lemma_prim_inv(m, n as nat);
        let tr = prim_state(m, n as nat).0;
        vstd::set_lib::lemma_int_range(0, n);
        assert(tree_set(tr, n).subset_of(vstd::set_lib::set_int_range(0, n)));
        vstd::set_lib::lemma_subset_equality(tree_set(tr, n), vstd::set_lib::set_int_range(0, n));
        assert forall|x: int| 0 <= x < n implies #[trigger] linked(e, 0, x) by {
            assert(vstd::set_lib::set_int_range(0, n).contains(x));
            assert(tree_set(tr, n).contains(x));
        }
    }
}

/// The matrix of least walk costs between terminals is a distance matrix.
pub(crate) proof fn lemma_closure_is_distance_matrix(es: Seq<(usize, usize, Edge)>, terms: Seq<usize>)
    ensures
        is_distance_matrix(closure_matrix(es, terms)),
{
    let m = closure_matrix(es, terms);
    assert forall|i: int, j: int| 0 <= i < m.len() && 0 <= j < m.len() implies #[trigger] m[i][j] == m[j][i] by {
        law_shortest_symmetric(es, terms[i], terms[j]);
    }
    assert forall|i: int, j: int| 0 <= i < m.len() && 0 <= j < m.len() && (#[trigger] m[i][j]) is Some implies m[i][j]->Some_0
        >= 0 by {
        let s = terms[i];
        let t = terms[j];
        let d = choose|d: int| is_distance_from(es, seq![(s, 0usize)], t as int, d, true);
        assert(is_distance_from(es, seq![(s, 0usize)], t as int, d, true));
        let (k, p) = choose|k: int, p: Seq<int>|
            0 <= k < 1 && #[trigger] is_walk(es, seq![(s, 0usize)][k].0 as int, t as int, p) && walk_cost(es, p, true) == d;
    }
}

/// Law: the approximate Steiner tree weight of a set of terminals is the
/// weight of a minimum spanning tree of their metric closure: no list of
/// terminal pairs that joins all the terminals weighs less in the closure,
/// and Prim's tree is such a list, of exactly that weight.
pub proof fn law_steiner_is_closure_mst(es: Seq<(usize, usize, Edge)>, terms: Seq<usize>, t: Seq<(int, int)>)
    requires
        joins_all(terms.len() as int, t),
    ensures
        w_le(steiner_spec(es, terms), list_weight(closure_matrix(es, terms), t)),
        joins_all(terms.len() as int, prim_edges(closure_matrix(es, terms), terms.len())),
        list_weight(closure_matrix(es, terms), prim_edges(closure_matrix(es, terms), terms.len())) == steiner_spec(
            es,
            terms,
        ),
{
    let m = closure_matrix(es, terms);
    lemma_closure_is_distance_matrix(es, terms);
    law_prim_least(m, t);
    law_prim_spans(m);
}

/// Walks go both ways.
proof fn lemma_linked_rev(t: Seq<(int, int)>, s: int, x: int)
    requires
        linked(t, s, x),
    ensures
        linked(t, x, s),
{
    let p = choose|p: Seq<int>| #[trigger] pw_valid(t, s, p) && pw_end(t, s, p) == x;
    let r = |y: int| linked(t, x, y);
    assert forall|i: int| 0 <= i < t.len() && i != -1 implies (r(#[trigger] t[i].0) <==> r(t[i].1)) by {
        if linked(t, x, t[i].0) {
            lemma_linked_push(t, x, t[i].0, i);
        }
        if linked(t, x, t[i].1) {
            lemma_linked_push(t, x, t[i].1, i);
        }
    }
    lemma_pw_indices(t, s, p);
    lemma_pw_empty(t, x);
    lemma_closed_along(t, r, -1, s, p);
}

/// Walks chain.
proof fn lemma_linked_trans(t: Seq<(int, int)>, s: int, y: int, z: int)
    requires
        linked(t, s, y),
        linked(t, y, z),
    ensures
        linked(t, s, z),
{
    let p = choose|p: Seq<int>| #[trigger] pw_valid(t, y, p) && pw_end(t, y, p) == z;
    let r = |w: int| linked(t, s, w);
    assert forall|i: int| 0 <= i < t.len() && i != -1 implies (r(#[trigger] t[i].0) <==> r(t[i].1)) by {
        if linked(t, s, t[i].0) {
            lemma_linked_push(t, s, t[i].0, i);
        }
        if linked(t, s, t[i].1) {
            lemma_linked_push(t, s, t[i].1, i);
        }
    }
    lemma_pw_indices(t, y, p);
    lemma_closed_along(t, r, -1, y, p);
}

/// The edges of `t` with both ends renamed by `f`.
pub open spec fn rename_edges(t: Seq<(int, int)>, f: spec_fn(int) -> int) -> Seq<(int, int)> {
    Seq::new(t.len(), |i: int| (f(t[i].0), f(t[i].1)))
}

/// A walk along `t` is a walk along its renamed edges, between the renamed ends.
proof fn lemma_pw_rename(t: Seq<(int, int)>, f: spec_fn(int) -> int, s: int, p: Seq<int>)
    requires
        pw_valid(t, s, p),
    ensures
        pw_valid(rename_edges(t, f), f(s), p),
        pw_end(rename_edges(t, f), f(s), p) == f(pw_end(t, s, p)),
    decreases p.len(),
{
    if p.len() > 0 {
        lemma_pw_rename(t, f, s, p.drop_last());
    }
}

/// The index in `p` of a terminal of `terms`.
pub open spec fn index_in(p: Seq<usize>, x: usize) -> int {
    choose|j: int| 0 <= j < p.len() && p[j] == x
}

/// Renaming terminal indices to indices of the same terminals keeps the
/// weight of a list in the metric closure.
proof fn lemma_rename_weight(
    es: Seq<(usize, usize, Edge)>,
    terms: Seq<usize>,
    p: Seq<usize>,
    f: spec_fn(int) -> int,
    l: Seq<(int, int)>,
)
    requires
        forall|i: int| 0 <= i < terms.len() ==> 0 <= #[trigger] f(i) < p.len() && p[f(i)] == terms[i],
        forall|i: int| 0 <= i < l.len() ==> 0 <= (#[trigger] l[i]).0 < terms.len() && 0 <= l[i].1 < terms.len(),
    ensures
        list_weight(closure_matrix(es, p), rename_edges(l, f)) == list_weight(closure_matrix(es, terms), l),
    decreases l.len(),
{
    if l.len() > 0 {
        let l0 = l.drop_last();
        assert forall|i: int| 0 <= i < l0.len() implies 0 <= (#[trigger] l0[i]).0 < terms.len() && 0 <= l0[i].1 < terms.len() by {
            assert(l0[i] == l[i]);
        }
        lemma_rename_weight(es, terms, p, f, l0);
        assert(rename_edges(l, f).drop_last() =~= rename_edges(l0, f));
        let e = l.last();
        assert(0 <= e.0 < terms.len() && 0 <= e.1 < terms.len());
        assert(f(e.0) < p.len() && f(e.1) < p.len());
    }
}

/// The approximate Steiner tree weight of `p` is no more than that of
/// `terms` when every terminal of `terms` is one of `p` and back.
proof fn lemma_steiner_same_set_le(es: Seq<(usize, usize, Edge)>, terms: Seq<usize>, p: Seq<usize>)
    requires
        terms.len() >= 1,
        forall|i: int| 0 <= i < terms.len() ==> p.contains(#[trigger] terms[i]),
        forall|j: int| 0 <= j < p.len() ==> terms.contains(#[trigger] p[j]),
    ensures
        w_le(steiner_spec(es, p), steiner_spec(es, terms)),
{
    let mt = closure_matrix(es, terms);
    let mp = closure_matrix(es, p);
    law_prim_spans(mt);
    let l = prim_edges(mt, terms.len());
    let f = |i: int| index_in(p, terms[i]);
    let g = |j: int| index_in(terms, p[j]);
    assert forall|i: int| 0 <= i < terms.len() implies 0 <= #[trigger] f(i) < p.len() && p[f(i)] == terms[i] by {
        assert(p.contains(terms[i]));
    }
    assert forall|j: int| 0 <= j < p.len() implies 0 <= #[trigger] g(j) < terms.len() && terms[g(j)] == p[j] by {
        assert(terms.contains(p[j]));
    }
    lemma_rename_weight(es, terms, p, f, l);
    let m = rename_edges(l, f);
    let z = Seq::new(p.len(), |j: int| (f(g(j)), j));
    assert forall|j: int| 0 <= j < z.len() implies edge_w(mp, #[trigger] z[j]) == Some(0int) by {
        assert(0 <= g(j) < terms.len());
        assert(p[f(g(j))] == p[j]);
        crate::steiner_bound::lemma_shortest_self(es, p[j]);
    }
    crate::steiner_bound::lemma_zero_weight(mp, z);
    let lt = m + z;
    lemma_weight_concat(mp, m, z);
    let np = p.len() as int;
    assert forall|i: int| 0 <= i < lt.len() implies 0 <= (#[trigger] lt[i]).0 < np && 0 <= lt[i].1 < np by {
        if i < m.len() {
            assert(lt[i] == m[i]);
            assert(0 <= l[i].0 < terms.len() && 0 <= l[i].1 < terms.len());
        } else {
            assert(lt[i] == z[i - m.len()]);
            assert(0 <= g(i - m.len()) < terms.len());
        }
    }
    assert forall|i: int| 0 <= i < m.len() implies #[trigger] lt[i] == m[i] by {}
    // every index of `p` is reached from index 0
    assert(p.contains(terms[0]));
    assert(terms.contains(p[0]));
    let h0 = f(g(0));
    assert(0 <= g(0) < terms.len() && terms[g(0)] == p[0]);
    assert(linked(l, 0, g(0)));
    let p0 = choose|q: Seq<int>| #[trigger] pw_valid(l, 0, q) && pw_end(l, 0, q) == g(0);
    lemma_pw_rename(l, f, 0, p0);
    lemma_linked_prefix(m, lt, f(0), h0);
    lemma_linked_rev(lt, f(0), h0);
    lemma_pw_empty(lt, h0);
    assert(lt[m.len() as int] == (h0, 0int));
    lemma_linked_push(lt, h0, h0, m.len() as int);
    lemma_linked_rev(lt, h0, 0);
    lemma_linked_trans(lt, 0, h0, f(0));
    assert forall|x: int| 0 <= x < np implies #[trigger] linked(lt, 0, x) by {
        let hx = f(g(x));
        assert(0 <= g(x) < terms.len());
        assert(linked(l, 0, g(x)));
        let px = choose|q: Seq<int>| #[trigger] pw_valid(l, 0, q) && pw_end(l, 0, q) == g(x);
        lemma_pw_rename(l, f, 0, px);
        lemma_linked_prefix(m, lt, f(0), hx);
        lemma_linked_trans(lt, 0, f(0), hx);
        assert(lt[m.len() + x] == (hx, x));
        lemma_linked_push(lt, 0, hx, m.len() + x);
    }
    lemma_closure_is_distance_matrix(es, p);
    law_prim_least(mp, lt);
}

/// Law: the approximate Steiner tree weight depends only on the set of
/// terminals: listing them in another order, or some of them more than
/// once, gives the same weight.
pub proof fn law_steiner_same_terminals(es: Seq<(usize, usize, Edge)>, terms: Seq<usize>, p: Seq<usize>)
    requires
        forall|i: int| 0 <= i < terms.len() ==> p.contains(#[trigger] terms[i]),
        forall|j: int| 0 <= j < p.len() ==> terms.contains(#[trigger] p[j]),
    ensures
        steiner_spec(es, p) == steiner_spec(es, terms),
{
    if terms.len() == 0 {
        if p.len() > 0 {
            assert(terms.contains(p[0]));
        }
    } else {
        assert(p.contains(terms[0]));
        lemma_steiner_same_set_le(es, terms, p);
        lemma_steiner_same_set_le(es, p, terms);
    }
}

} // verus!
