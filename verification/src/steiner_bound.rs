//! The bound on the Steiner tree estimate: the minimum spanning tree weight
//! of the terminals' metric closure is at most twice the cost of any set of
//! graph edges that connects the terminals.
//!
//! The proof walks twice around such an edge set, visiting every terminal,
//! and then reads the terminals off that closed walk in the order it meets
//! them.
use vstd::prelude::*;

use crate::model::Edge;
use crate::optimizer::{closure_matrix, shortest, steiner_spec, w_add, w_le};
use crate::spanning::{
    edge_w, joins_all, law_prim_least, law_steiner_is_closure_mst, lemma_closure_is_distance_matrix,
    lemma_linked_prefix, lemma_linked_push, lemma_pw_empty, lemma_weight_concat, linked, list_weight, pe_other,
    pe_touches, prim_edges, pw_end, pw_valid,
};
use crate::petgraph_specs::{other_end, touches};
use crate::walks::{
    edge_cost, is_distance_from, is_walk, law_walk_reverse, lemma_walk_empty, lemma_walk_push, walk_cost, walk_end,
    walk_valid,
};

verus! {

/// Every edge of the walk `p` is one of the edges `f`.
pub open spec fn uses_only(f: Seq<int>, p: Seq<int>) -> bool {
    forall|j: int| 0 <= j < p.len() ==> f.contains(#[trigger] p[j])
}

/// A walk along the edges `f` leads from `s` to `x`.
pub open spec fn reach_in(es: Seq<(usize, usize, Edge)>, f: Seq<int>, s: int, x: int) -> bool {
    exists|p: Seq<int>| #[trigger] is_walk(es, s, x, p) && uses_only(f, p)
}

/// Following `p` then `q` from `s` ends where `q` ends when followed from
/// the end of `p`, and is valid when both parts are.
pub(crate) proof fn lemma_walk_concat(es: Seq<(usize, usize, Edge)>, s: int, p: Seq<int>, q: Seq<int>)
    ensures
        walk_end(es, s, p + q) == walk_end(es, walk_end(es, s, p), q),
        walk_valid(es, s, p) && walk_valid(es, walk_end(es, s, p), q) ==> walk_valid(es, s, p + q),
        walk_valid(es, s, p + q) ==> walk_valid(es, s, p) && walk_valid(es, walk_end(es, s, p), q),
        walk_cost(es, p + q, true) == walk_cost(es, p, true) + walk_cost(es, q, true),
    decreases q.len(),
{
    if q.len() == 0 {
        assert(p + q =~= p);
    } else {
        lemma_walk_concat(es, s, p, q.drop_last());
        assert((p + q).drop_last() =~= p + q.drop_last());
        assert((p + q).last() == q.last());
    }
}

/// Every node reaches itself.
proof fn lemma_reach_refl(es: Seq<(usize, usize, Edge)>, f: Seq<int>, s: int)
    ensures
        reach_in(es, f, s, s),
{
    lemma_walk_empty(es, s, true);
    assert(is_walk(es, s, s, Seq::<int>::empty()) && uses_only(f, Seq::<int>::empty()));
}

/// Reaching goes both ways.
proof fn lemma_reach_sym(es: Seq<(usize, usize, Edge)>, f: Seq<int>, s: int, x: int)
    requires
        reach_in(es, f, s, x),
    ensures
        reach_in(es, f, x, s),
{
    let p = choose|p: Seq<int>| #[trigger] is_walk(es, s, x, p) && uses_only(f, p);
    law_walk_reverse(es, s, x, p, true);
    let r = p.reverse();
    assert forall|j: int| 0 <= j < r.len() implies f.contains(#[trigger] r[j]) by {
        assert(r[j] == p[p.len() - 1 - j]);
    }
    assert(is_walk(es, x, s, r) && uses_only(f, r));
}

/// Reaching chains.
proof fn lemma_reach_trans(es: Seq<(usize, usize, Edge)>, f: Seq<int>, s: int, y: int, x: int)
    requires
        reach_in(es, f, s, y),
        reach_in(es, f, y, x),
    ensures
        reach_in(es, f, s, x),
{
    let p = choose|p: Seq<int>| #[trigger] is_walk(es, s, y, p) && uses_only(f, p);
    let q = choose|q: Seq<int>| #[trigger] is_walk(es, y, x, q) && uses_only(f, q);
    lemma_walk_concat(es, s, p, q);
    assert forall|j: int| 0 <= j < (p + q).len() implies f.contains(#[trigger] (p + q)[j]) by {
        if j < p.len() {
            assert((p + q)[j] == p[j]);
        } else {
            assert((p + q)[j] == q[j - p.len()]);
        }
    }
    assert(is_walk(es, s, x, p + q) && uses_only(f, p + q));
}

/// Reaching extends along an edge of `f`.
proof fn lemma_reach_push(es: Seq<(usize, usize, Edge)>, f: Seq<int>, s: int, x: int, e: int)
    requires
        reach_in(es, f, s, x),
        f.contains(e),
        0 <= e < es.len(),
        touches(es[e], x),
    ensures
        reach_in(es, f, s, other_end(es[e], x)),
{
    let p = choose|p: Seq<int>| #[trigger] is_walk(es, s, x, p) && uses_only(f, p);
    lemma_walk_push(es, s, x, p, e, true);
    assert forall|j: int| 0 <= j < p.push(e).len() implies f.contains(#[trigger] p.push(e)[j]) by {
        if j < p.len() {
            assert(p.push(e)[j] == p[j]);
        }
    }
    assert(is_walk(es, s, other_end(es[e], x), p.push(e)) && uses_only(f, p.push(e)));
}

/// How many times `e` occurs in `s`.
pub open spec fn cnt(s: Seq<int>, e: int) -> nat
    decreases s.len(),
{
    if s.len() == 0 {
        0
    } else {
        cnt(s.drop_last(), e) + if s.last() == e {
            1nat
        } else {
            0nat
        }
    }
}

/// The entries of `s` that satisfy `pred`, in order.
pub open spec fn keep(s: Seq<int>, pred: spec_fn(int) -> bool) -> Seq<int>
    decreases s.len(),
{
    if s.len() == 0 {
        Seq::empty()
    } else if pred(s.last()) {
        keep(s.drop_last(), pred).push(s.last())
    } else {
        keep(s.drop_last(), pred)
    }
}

/// The edges of `f` whose first end `a` reaches along `f`.
pub open spec fn side(es: Seq<(usize, usize, Edge)>, f: Seq<int>, a: int) -> spec_fn(int) -> bool {
    |e: int| reach_in(es, f, a, es[e].0 as int)
}

/// The nodes that `a` reaches along `f`.
pub open spec fn near(es: Seq<(usize, usize, Edge)>, f: Seq<int>, a: int) -> spec_fn(int) -> bool {
    |x: int| reach_in(es, f, a, x)
}

/// The nodes that `a` does not reach along `f`.
pub open spec fn far(es: Seq<(usize, usize, Edge)>, f: Seq<int>, a: int) -> spec_fn(int) -> bool {
    |x: int| !reach_in(es, f, a, x)
}

/// The walk `p` from `s` passes through `x`.
pub open spec fn visits(es: Seq<(usize, usize, Edge)>, s: int, p: Seq<int>, x: int) -> bool {
    exists|k: int| 0 <= k <= p.len() && #[trigger] walk_end(es, s, p.take(k)) == x
}

/// Counts add up over two lists one after the other.
proof fn lemma_cnt_concat(a: Seq<int>, b: Seq<int>, e: int)
    ensures
        cnt(a + b, e) == cnt(a, e) + cnt(b, e),
    decreases b.len(),
{
    if b.len() == 0 {
        assert(a + b =~= a);
    } else {
        lemma_cnt_concat(a, b.drop_last(), e);
        assert((a + b).drop_last() =~= a + b.drop_last());
        assert((a + b).last() == b.last());
    }
}

/// An entry occurs exactly when its count is positive.
proof fn lemma_cnt_contains(s: Seq<int>, e: int)
    ensures
        cnt(s, e) > 0 <==> s.contains(e),
    decreases s.len(),
{
    if s.len() > 0 {
        lemma_cnt_contains(s.drop_last(), e);
        if s.drop_last().contains(e) {
            let j = choose|j: int| 0 <= j < s.drop_last().len() && s.drop_last()[j] == e;
            assert(s[j] == e);
        }
        if s.contains(e) && s.last() != e {
            let j = choose|j: int| 0 <= j < s.len() && s[j] == e;
            assert(s.drop_last()[j] == e);
        }
    }
}

/// What `keep` keeps: no more entries, those that satisfy the predicate, each
/// as often as before.
proof fn lemma_keep(s: Seq<int>, pred: spec_fn(int) -> bool)
    ensures
        keep(s, pred).len() <= s.len(),
        forall|e: int| #[trigger] cnt(keep(s, pred), e) == if pred(e) {
            cnt(s, e)
        } else {
            0
        },
        forall|e: int| #[trigger] keep(s, pred).contains(e) <==> s.contains(e) && pred(e),
    decreases s.len(),
{
    if s.len() > 0 {
        lemma_keep(s.drop_last(), pred);
        let k = keep(s, pred);
        let k0 = keep(s.drop_last(), pred);
        if pred(s.last()) {
            assert(k.drop_last() =~= k0);
        }
        assert forall|e: int| #[trigger] cnt(k, e) == if pred(e) {
            cnt(s, e)
        } else {
            0
        } by {
            assert(cnt(k0, e) == if pred(e) {
                cnt(s.drop_last(), e)
            } else {
                0
            });
            if pred(s.last()) {
                assert(cnt(k, e) == cnt(k0, e) + if s.last() == e {
                    1nat
                } else {
                    0nat
                });
            } else {
                assert(k == k0);
            }
        }
        assert forall|e: int| #[trigger] k.contains(e) <==> s.contains(e) && pred(e) by {
            lemma_cnt_contains(k, e);
            lemma_cnt_contains(s, e);
        }
    }
}

/// A walk along `f` from `s` ends at a node that `s` reaches without the last
/// edge `g` of `f`, or that an end of `g` reaches without it.
proof fn lemma_walk_sides(es: Seq<(usize, usize, Edge)>, f: Seq<int>, s: int, p: Seq<int>)
    requires
        f.len() > 0,
        walk_valid(es, s, p),
        uses_only(f, p),
    ensures
        ({
            let fp = f.drop_last();
            let g = es[f.last()];
            let x = walk_end(es, s, p);
            reach_in(es, fp, s, x) || reach_in(es, fp, g.0 as int, x) || reach_in(es, fp, g.1 as int, x)
        }),
    decreases p.len(),
{
    let fp = f.drop_last();
    let g = es[f.last()];
    if p.len() == 0 {
        lemma_reach_refl(es, fp, s);
    } else {
        let q = p.drop_last();
        let e = p.last();
        assert forall|j: int| 0 <= j < q.len() implies f.contains(#[trigger] q[j]) by {
            assert(q[j] == p[j]);
        }
        lemma_walk_sides(es, f, s, q);
        let y = walk_end(es, s, q);
        let x = walk_end(es, s, p);
        assert(f.contains(p[p.len() - 1]));
        if e == f.last() {
            if g.0 == x {
                lemma_reach_refl(es, fp, g.0 as int);
            } else {
                lemma_reach_refl(es, fp, g.1 as int);
            }
        } else {
            let j = choose|j: int| 0 <= j < f.len() && f[j] == e;
            assert(fp[j] == e);
            if reach_in(es, fp, s, y) {
                lemma_reach_push(es, fp, s, y, e);
            } else if reach_in(es, fp, g.0 as int, y) {
                lemma_reach_push(es, fp, g.0 as int, y, e);
            } else {
                lemma_reach_push(es, fp, g.1 as int, y, e);
            }
        }
    }
}

/// When the edges `f` without their last edge `g` no longer connect `r` to
/// every node of `xs`, an end of `g` reaches `r` without `g`, the two ends
/// do not reach each other without it, and each node of `xs` is reached from
/// one of them.
proof fn lemma_split_facts(es: Seq<(usize, usize, Edge)>, f: Seq<int>, xs: Seq<int>, r: int, i0: int)
    requires
        f.len() > 0,
        forall|i: int| 0 <= i < xs.len() ==> #[trigger] reach_in(es, f, r, xs[i]),
        0 <= i0 < xs.len(),
        !reach_in(es, f.drop_last(), r, xs[i0]),
    ensures
        ({
            let fp = f.drop_last();
            let a = es[f.last()].0 as int;
            let b = es[f.last()].1 as int;
            &&& reach_in(es, fp, a, r) || reach_in(es, fp, b, r)
            &&& !reach_in(es, fp, a, b)
            &&& forall|i: int| 0 <= i < xs.len() ==> reach_in(es, fp, a, #[trigger] xs[i]) || reach_in(es, fp, b, xs[i])
        }),
{
    let fp = f.drop_last();
    let a = es[f.last()].0 as int;
    let b = es[f.last()].1 as int;
    // every node of `xs` is reached from `r` or from an end of `g`
    assert forall|i: int| 0 <= i < xs.len() implies reach_in(es, fp, r, #[trigger] xs[i]) || reach_in(es, fp, a, xs[i])
        || reach_in(es, fp, b, xs[i]) by {
        assert(reach_in(es, f, r, xs[i]));
        let p = choose|p: Seq<int>| #[trigger] is_walk(es, r, xs[i], p) && uses_only(f, p);
        lemma_walk_sides(es, f, r, p);
    }
    let x0 = xs[i0];
    // so an end of `g` reaches `r`
    assert(reach_in(es, fp, a, r) || reach_in(es, fp, b, r)) by {
        lemma_reach_sym(es, f, r, x0);
        let p = choose|p: Seq<int>| #[trigger] is_walk(es, x0, r, p) && uses_only(f, p);
        lemma_walk_sides(es, f, x0, p);
        if reach_in(es, fp, x0, r) {
            if reach_in(es, fp, a, x0) {
                lemma_reach_trans(es, fp, a, x0, r);
            } else {
                lemma_reach_trans(es, fp, b, x0, r);
            }
        }
    }
    // the ends do not reach each other, or `r` would reach every node
    if reach_in(es, fp, a, b) {
        lemma_reach_sym(es, fp, a, b);
        if reach_in(es, fp, a, r) {
            lemma_reach_sym(es, fp, a, r);
            if reach_in(es, fp, a, x0) {
                lemma_reach_trans(es, fp, r, a, x0);
            } else {
                lemma_reach_trans(es, fp, r, a, b);
                lemma_reach_trans(es, fp, r, b, x0);
            }
        } else {
            lemma_reach_sym(es, fp, b, r);
            if reach_in(es, fp, b, x0) {
                lemma_reach_trans(es, fp, r, b, x0);
            } else {
                lemma_reach_trans(es, fp, r, b, a);
                lemma_reach_trans(es, fp, r, a, x0);
            }
        }
        assert(false);
    }
    assert forall|i: int| 0 <= i < xs.len() implies reach_in(es, fp, a, #[trigger] xs[i]) || reach_in(es, fp, b, xs[i]) by {
        if reach_in(es, fp, r, xs[i]) {
            if reach_in(es, fp, a, r) {
                lemma_reach_trans(es, fp, a, r, xs[i]);
            } else {
                lemma_reach_trans(es, fp, b, r, xs[i]);
            }
        }
    }
}

/// A walk along `f` that starts at a node that `a` reaches uses only edges
/// on `a`'s side.
proof fn lemma_restrict(es: Seq<(usize, usize, Edge)>, f: Seq<int>, a: int, s: int, p: Seq<int>)
    requires
        reach_in(es, f, a, s),
        walk_valid(es, s, p),
        uses_only(f, p),
    ensures
        uses_only(keep(f, side(es, f, a)), p),
        reach_in(es, f, a, walk_end(es, s, p)),
    decreases p.len(),
{
    lemma_keep(f, side(es, f, a));
    if p.len() > 0 {
        let q = p.drop_last();
        let e = p.last();
        assert forall|j: int| 0 <= j < q.len() implies f.contains(#[trigger] q[j]) by {
            assert(q[j] == p[j]);
        }
        lemma_restrict(es, f, a, s, q);
        let y = walk_end(es, s, q);
        assert(f.contains(p[p.len() - 1]));
        lemma_reach_push(es, f, a, y, e);
        if es[e].0 != y {
            assert(other_end(es[e], y) == es[e].0);
        }
        assert(side(es, f, a)(e));
        assert forall|j: int| 0 <= j < p.len() implies keep(f, side(es, f, a)).contains(#[trigger] p[j]) by {
            if j < q.len() {
                assert(q[j] == p[j]);
            }
        }
    }
}

/// Going round `wa` from `r` as far as its visit to `a`, over `g` to `b`,
/// round `wb`, back over `g` and round the rest of `wa` visits everything
/// that both round walks visit.
proof fn lemma_combine(
    es: Seq<(usize, usize, Edge)>,
    r: int,
    a: int,
    b: int,
    g: int,
    wa: Seq<int>,
    wb: Seq<int>,
) -> (w: Seq<int>)
    requires
        is_walk(es, r, r, wa),
        visits(es, r, wa, a),
        is_walk(es, b, b, wb),
        0 <= g < es.len(),
        touches(es[g], a),
        other_end(es[g], a) == b,
        a != b,
    ensures
        is_walk(es, r, r, w),
        forall|x: int| visits(es, r, wa, x) ==> visits(es, r, w, x),
        forall|x: int| visits(es, b, wb, x) ==> visits(es, r, w, x),
        forall|e: int| #[trigger] cnt(w, e) == cnt(wa, e) + cnt(wb, e) + if e == g {
            2nat
        } else {
            0nat
        },
{
    let i = choose|k: int| 0 <= k <= wa.len() && #[trigger] walk_end(es, r, wa.take(k)) == a;
    let a1 = wa.take(i);
    let a2 = wa.skip(i);
    assert(wa =~= a1 + a2);
    lemma_walk_concat(es, r, a1, a2);
    let gs = seq![g];
    assert(walk_valid(es, a, gs) && walk_end(es, a, gs) == b) by {
        lemma_walk_empty(es, a, true);
        lemma_walk_push(es, a, a, Seq::<int>::empty(), g, true);
        assert(Seq::<int>::empty().push(g) =~= gs);
    }
    assert(walk_valid(es, b, gs) && walk_end(es, b, gs) == a) by {
        lemma_walk_empty(es, b, true);
        assert(touches(es[g], b));
        lemma_walk_push(es, b, b, Seq::<int>::empty(), g, true);
        assert(Seq::<int>::empty().push(g) =~= gs);
    }
    let h1 = a1 + gs;
    let h2 = h1 + wb;
    let h3 = h2 + gs;
    let w = h3 + a2;
    lemma_walk_concat(es, r, a1, gs);
    lemma_walk_concat(es, r, h1, wb);
    lemma_walk_concat(es, r, h2, gs);
    lemma_walk_concat(es, r, h3, a2);
    assert forall|x: int| visits(es, r, wa, x) implies visits(es, r, w, x) by {
        let k = choose|k: int| 0 <= k <= wa.len() && #[trigger] walk_end(es, r, wa.take(k)) == x;
        if k <= i {
            assert(w.take(k) =~= wa.take(k));
        } else {
            let k2 = h3.len() + (k - i);
            assert(w.take(k2) =~= h3 + a2.take(k - i));
            assert(wa.take(k) =~= a1 + a2.take(k - i));
            lemma_walk_concat(es, r, h3, a2.take(k - i));
            lemma_walk_concat(es, r, a1, a2.take(k - i));
            assert(walk_end(es, r, w.take(k2)) == x);
        }
    }
    assert forall|x: int| visits(es, b, wb, x) implies visits(es, r, w, x) by {
        let k = choose|k: int| 0 <= k <= wb.len() && #[trigger] walk_end(es, b, wb.take(k)) == x;
        let k2 = h1.len() + k;
        assert(w.take(k2) =~= h1 + wb.take(k));
        lemma_walk_concat(es, r, h1, wb.take(k));
        assert(walk_end(es, r, w.take(k2)) == x);
    }
    assert forall|e: int| #[trigger] cnt(w, e) == cnt(wa, e) + cnt(wb, e) + if e == g {
        2nat
    } else {
        0nat
    } by {
        lemma_cnt_concat(a1, a2, e);
        lemma_cnt_concat(a1, gs, e);
        lemma_cnt_concat(h1, wb, e);
        lemma_cnt_concat(h2, gs, e);
        lemma_cnt_concat(h3, a2, e);
        assert(gs.drop_last() =~= Seq::<int>::empty());
        assert(cnt(Seq::<int>::empty(), e) == 0);
        assert(cnt(gs, e) == if e == g {
            1nat
        } else {
            0nat
        });
    }
    w
}

/// The edges that `keep` keeps are edges of the graph when those of `f` are.
proof fn lemma_keep_in_range(es: Seq<(usize, usize, Edge)>, f: Seq<int>, pred: spec_fn(int) -> bool)
    requires
        forall|i: int| 0 <= i < f.len() ==> 0 <= #[trigger] f[i] < es.len(),
    ensures
        forall|i: int| 0 <= i < keep(f, pred).len() ==> 0 <= #[trigger] keep(f, pred)[i] < es.len(),
{
    lemma_keep(f, pred);
    assert forall|i: int| 0 <= i < keep(f, pred).len() implies 0 <= #[trigger] keep(f, pred)[i] < es.len() by {
        assert(keep(f, pred).contains(keep(f, pred)[i]));
        let j = choose|j: int| 0 <= j < f.len() && f[j] == keep(f, pred)[i];
    }
}

/// A closed walk from `r` along the edges `f`, taking each edge at most twice
/// as often as `f` holds it, that visits every node of `xs`, when `r` reaches
/// all of them along `f`.
proof fn lemma_tour(es: Seq<(usize, usize, Edge)>, f: Seq<int>, xs: Seq<int>, r: int) -> (w: Seq<int>)
    requires
        forall|i: int| 0 <= i < f.len() ==> 0 <= #[trigger] f[i] < es.len(),
        forall|i: int| 0 <= i < xs.len() ==> #[trigger] reach_in(es, f, r, xs[i]),
    ensures
        is_walk(es, r, r, w),
        forall|i: int| 0 <= i < xs.len() ==> visits(es, r, w, #[trigger] xs[i]),
        forall|e: int| #[trigger] cnt(w, e) <= 2 * cnt(f, e),
    decreases f.len(),
{
    if f.len() == 0 {
        lemma_walk_empty(es, r, true);
        let w = Seq::<int>::empty();
        assert forall|i: int| 0 <= i < xs.len() implies visits(es, r, w, #[trigger] xs[i]) by {
            assert(reach_in(es, f, r, xs[i]));
            let p = choose|p: Seq<int>| #[trigger] is_walk(es, r, xs[i], p) && uses_only(f, p);
            if p.len() > 0 {
                assert(f.contains(p[0]));
            }
            assert(p =~= Seq::<int>::empty());
            assert(w.take(0) =~= Seq::<int>::empty());
            assert(walk_end(es, r, w.take(0)) == xs[i]);
        }
        w
    } else {
        let fp = f.drop_last();
        let g = f.last();
        assert forall|i: int| 0 <= i < fp.len() implies 0 <= #[trigger] fp[i] < es.len() by {
            assert(fp[i] == f[i]);
        }
        assert(0 <= f[f.len() - 1] < es.len());
        if forall|i: int| 0 <= i < xs.len() ==> #[trigger] reach_in(es, fp, r, xs[i]) {
            let w = lemma_tour(es, fp, xs, r);
            assert forall|e: int| #[trigger] cnt(w, e) <= 2 * cnt(f, e) by {
                assert(cnt(w, e) <= 2 * cnt(fp, e));
            }
            w
        } else {
            let i0 = choose|i: int| 0 <= i < xs.len() && !reach_in(es, fp, r, xs[i]);
            lemma_split_facts(es, f, xs, r, i0);
            let a0 = es[g].0 as int;
            let b0 = es[g].1 as int;
            let a = if reach_in(es, fp, a0, r) {
                a0
            } else {
                b0
            };
            let b = if reach_in(es, fp, a0, r) {
                b0
            } else {
                a0
            };
            assert(!reach_in(es, fp, a, b)) by {
                if reach_in(es, fp, a, b) {
                    lemma_reach_sym(es, fp, a, b);
                }
            }
            assert(a != b) by {
                if a == b {
                    lemma_reach_refl(es, fp, a);
                }
            }
            let fa = keep(fp, side(es, fp, a));
            let fb = keep(fp, side(es, fp, b));
            let xa = keep(xs, near(es, fp, a)).push(a);
            let xb = keep(xs, far(es, fp, a)).push(b);
            lemma_keep(fp, side(es, fp, a));
            lemma_keep(fp, side(es, fp, b));
            lemma_keep(xs, near(es, fp, a));
            lemma_keep(xs, far(es, fp, a));
            lemma_keep_in_range(es, fp, side(es, fp, a));
            lemma_keep_in_range(es, fp, side(es, fp, b));
            lemma_reach_sym(es, fp, a, r);
            assert forall|i: int| 0 <= i < xa.len() implies #[trigger] reach_in(es, fa, r, xa[i]) by {
                let x = xa[i];
                if i < xa.len() - 1 {
                    assert(keep(xs, near(es, fp, a)).contains(x));
                } else {
                    lemma_reach_refl(es, fp, a);
                }
                assert(reach_in(es, fp, a, x));
                lemma_reach_trans(es, fp, r, a, x);
                let p = choose|p: Seq<int>| #[trigger] is_walk(es, r, x, p) && uses_only(fp, p);
                lemma_restrict(es, fp, a, r, p);
            }
            lemma_reach_refl(es, fp, b);
            assert forall|i: int| 0 <= i < xb.len() implies #[trigger] reach_in(es, fb, b, xb[i]) by {
                let x = xb[i];
                if i < xb.len() - 1 {
                    assert(keep(xs, far(es, fp, a)).contains(x));
                    let j = choose|j: int| 0 <= j < xs.len() && xs[j] == x;
                    assert(reach_in(es, fp, a0, xs[j]) || reach_in(es, fp, b0, xs[j]));
                }
                assert(reach_in(es, fp, b, x));
                let p = choose|p: Seq<int>| #[trigger] is_walk(es, b, x, p) && uses_only(fp, p);
                lemma_restrict(es, fp, b, b, p);
            }
            let wa = lemma_tour(es, fa, xa, r);
            let wb = lemma_tour(es, fb, xb, b);
            assert(visits(es, r, wa, a)) by {
                assert(xa[xa.len() - 1] == a);
            }
            let w = lemma_combine(es, r, a, b, g, wa, wb);
            assert forall|i: int| 0 <= i < xs.len() implies visits(es, r, w, #[trigger] xs[i]) by {
                let x = xs[i];
                if reach_in(es, fp, a, x) {
                    assert(near(es, fp, a)(x));
                    assert(keep(xs, near(es, fp, a)).contains(x));
                    let j = choose|j: int| 0 <= j < keep(xs, near(es, fp, a)).len() && keep(xs, near(es, fp, a))[j] == x;
                    assert(xa[j] == x);
                    assert(visits(es, r, wa, xa[j]));
                } else {
                    assert(far(es, fp, a)(x));
                    assert(keep(xs, far(es, fp, a)).contains(x));
                    let j = choose|j: int| 0 <= j < keep(xs, far(es, fp, a)).len() && keep(xs, far(es, fp, a))[j] == x;
                    assert(xb[j] == x);
                    assert(visits(es, b, wb, xb[j]));
                }
            }
            assert forall|e: int| #[trigger] cnt(w, e) <= 2 * cnt(f, e) by {
                assert(cnt(wa, e) <= 2 * cnt(fa, e));
                assert(cnt(wb, e) <= 2 * cnt(fb, e));
                if side(es, fp, a)(e) && side(es, fp, b)(e) {
                    lemma_reach_sym(es, fp, b, es[e].0 as int);
                    lemma_reach_trans(es, fp, a, es[e].0 as int, b);
                }
                assert(cnt(fa, e) + cnt(fb, e) <= cnt(fp, e));
            }
            w
        }
    }
}

/// Leaving out the `k`th entry lowers its count by one.
proof fn lemma_cnt_remove(s: Seq<int>, k: int, x: int)
    requires
        0 <= k < s.len(),
    ensures
        cnt(s, x) == cnt(s.remove(k), x) + if s[k] == x {
            1nat
        } else {
            0nat
        },
    decreases s.len(),
{
    if k == s.len() - 1 {
        assert(s.remove(k) =~= s.drop_last());
    } else {
        lemma_cnt_remove(s.drop_last(), k, x);
        assert(s.remove(k).drop_last() =~= s.drop_last().remove(k));
        assert(s.remove(k).last() == s.last());
        assert(s.drop_last()[k] == s[k]);
    }
}

/// Leaving out the `k`th edge lowers the cost by that edge's.
proof fn lemma_cost_remove(es: Seq<(usize, usize, Edge)>, s: Seq<int>, k: int)
    requires
        0 <= k < s.len(),
    ensures
        walk_cost(es, s, true) == walk_cost(es, s.remove(k), true) + edge_cost(es[s[k]].2, true),
    decreases s.len(),
{
    if k == s.len() - 1 {
        assert(s.remove(k) =~= s.drop_last());
    } else {
        lemma_cost_remove(es, s.drop_last(), k);
        assert(s.remove(k).drop_last() =~= s.drop_last().remove(k));
        assert(s.remove(k).last() == s.last());
        assert(s.drop_last()[k] == s[k]);
    }
}

/// A list whose entries occur no more often than in `budget` costs no more.
proof fn lemma_cost_by_counts(es: Seq<(usize, usize, Edge)>, w: Seq<int>, budget: Seq<int>)
    requires
        forall|e: int| #[trigger] cnt(w, e) <= cnt(budget, e),
    ensures
        walk_cost(es, w, true) <= walk_cost(es, budget, true),
    decreases w.len(),
{
    if w.len() > 0 {
        let e = w.last();
        assert(cnt(w, e) >= 1);
        lemma_cnt_contains(budget, e);
        let k = choose|k: int| 0 <= k < budget.len() && budget[k] == e;
        let b2 = budget.remove(k);
        lemma_cost_remove(es, budget, k);
        assert forall|x: int| #[trigger] cnt(w.drop_last(), x) <= cnt(b2, x) by {
            lemma_cnt_remove(budget, k, x);
            assert(cnt(w, x) <= cnt(budget, x));
        }
        lemma_cost_by_counts(es, w.drop_last(), b2);
    }
}

/// Walks from `s` to `t` costing at most `c` have a least cost.
proof fn lemma_least_walk(es: Seq<(usize, usize, Edge)>, s: usize, t: int, c: nat)
    requires
        exists|p: Seq<int>| #[trigger] is_walk(es, s as int, t, p) && walk_cost(es, p, true) <= c,
    ensures
        exists|d: int| is_distance_from(es, seq![(s, 0usize)], t, d, true),
    decreases c,
{
    if c > 0 && exists|p: Seq<int>| #[trigger] is_walk(es, s as int, t, p) && walk_cost(es, p, true) <= c - 1 {
        lemma_least_walk(es, s, t, (c - 1) as nat);
    } else {
        let p = choose|p: Seq<int>| #[trigger] is_walk(es, s as int, t, p) && walk_cost(es, p, true) <= c;
        let d = walk_cost(es, p, true) as int;
        let srcs = seq![(s, 0usize)];
        assert(is_walk(es, srcs[0].0 as int, t, p));
        assert forall|k: int, q: Seq<int>| 0 <= k < srcs.len() && #[trigger] is_walk(es, srcs[k].0 as int, t, q) implies walk_cost(
            es,
            q,
            true,
        ) >= d by {
            assert(is_walk(es, s as int, t, q));
        }
        assert(is_distance_from(es, srcs, t, d, true));
    }
}

/// The least cost between two nodes is at most that of any walk between them.
proof fn lemma_shortest_le(es: Seq<(usize, usize, Edge)>, s: usize, t: usize, p: Seq<int>)
    requires
        is_walk(es, s as int, t as int, p),
    ensures
        shortest(es, s, t) is Some,
        shortest(es, s, t)->Some_0 <= walk_cost(es, p, true),
{
    lemma_least_walk(es, s, t as int, walk_cost(es, p, true));
    let d = choose|d: int| is_distance_from(es, seq![(s, 0usize)], t as int, d, true);
    assert(is_walk(es, seq![(s, 0usize)][0].0 as int, t as int, p));
}

/// A node is at no distance from itself.
pub(crate) proof fn lemma_shortest_self(es: Seq<(usize, usize, Edge)>, s: usize)
    ensures
        shortest(es, s, s) == Some(0int),
{
    lemma_walk_empty(es, s as int, true);
    lemma_shortest_le(es, s, s, Seq::<int>::empty());
    let d = choose|d: int| is_distance_from(es, seq![(s, 0usize)], s as int, d, true);
    let (k, p) = choose|k: int, p: Seq<int>|
        0 <= k < 1 && #[trigger] is_walk(es, seq![(s, 0usize)][k].0 as int, s as int, p) && walk_cost(es, p, true) == d;
}

/// `y` is the node of one of the terminals.
pub open spec fn is_term(terms: Seq<usize>, y: int) -> bool {
    exists|i: int| 0 <= i < terms.len() && terms[i] == y
}

/// The index of a terminal at node `y`.
pub open spec fn term_at(terms: Seq<usize>, y: int) -> int {
    choose|i: int| 0 <= i < terms.len() && terms[i] == y
}

/// Reading the terminals off the first `j` steps of the walk `w` from the
/// first terminal: pairs of terminal indices, each joining the terminal met
/// last to the next one met.  Their weight in the metric closure is at most
/// the cost of the walk up to the last terminal met (after `pl` steps, at
/// index `last`), and they join index 0 to each terminal met after a step.
proof fn lemma_scan(es: Seq<(usize, usize, Edge)>, terms: Seq<usize>, w: Seq<int>, j: int) -> (res: (
    Seq<(int, int)>,
    int,
    int,
))
    requires
        terms.len() >= 1,
        walk_valid(es, terms[0] as int, w),
        0 <= j <= w.len(),
    ensures
        0 <= res.2 <= j,
        0 <= res.1 < terms.len(),
        terms[res.1] as int == walk_end(es, terms[0] as int, w.take(res.2)),
        list_weight(closure_matrix(es, terms), res.0) is Some,
        list_weight(closure_matrix(es, terms), res.0)->Some_0 <= walk_cost(es, w.take(res.2), true),
        forall|i: int| 0 <= i < res.0.len() ==> 0 <= (#[trigger] res.0[i]).0 < terms.len() && 0 <= res.0[i].1 < terms.len(),
        linked(res.0, 0, res.1),
        forall|k: int|
            1 <= k <= j && is_term(terms, #[trigger] walk_end(es, terms[0] as int, w.take(k))) ==> linked(
                res.0,
                0,
                term_at(terms, walk_end(es, terms[0] as int, w.take(k))),
            ),
    decreases j,
{
    let r = terms[0] as int;
    let m = closure_matrix(es, terms);
    if j == 0 {
        let l = Seq::<(int, int)>::empty();
        lemma_pw_empty(l, 0);
        assert(w.take(0) =~= Seq::<int>::empty());
        (l, 0, 0)
    } else {
        let (l, last, pl) = lemma_scan(es, terms, w, j - 1);
        let y = walk_end(es, r, w.take(j));
        if is_term(terms, y) {
            let t = term_at(terms, y);
            let sub = w.subrange(pl, j);
            assert(w =~= w.take(j) + w.skip(j));
            lemma_walk_concat(es, r, w.take(j), w.skip(j));
            assert(w.take(j) =~= w.take(pl) + sub);
            lemma_walk_concat(es, r, w.take(pl), sub);
            assert(is_walk(es, terms[last] as int, terms[t] as int, sub));
            lemma_shortest_le(es, terms[last], terms[t], sub);
            assert(m[last][t] == shortest(es, terms[last], terms[t]));
            let l2 = l.push((last, t));
            assert(l2.drop_last() =~= l);
            assert(list_weight(m, l2) == w_add(list_weight(m, l), edge_w(m, (last, t))));
            lemma_linked_prefix(l, l2, 0, last);
            lemma_linked_push(l2, 0, last, l.len() as int);
            assert forall|k: int|
                1 <= k <= j && is_term(terms, #[trigger] walk_end(es, r, w.take(k))) implies linked(
                l2,
                0,
                term_at(terms, walk_end(es, r, w.take(k))),
            ) by {
                if k < j {
                    lemma_linked_prefix(l, l2, 0, term_at(terms, walk_end(es, r, w.take(k))));
                }
            }
            assert forall|i: int| 0 <= i < l2.len() implies 0 <= (#[trigger] l2[i]).0 < terms.len() && 0 <= l2[i].1
                < terms.len() by {
                if i < l.len() {
                    assert(l2[i] == l[i]);
                }
            }
            (l2, t, j)
        } else {
            (l, last, pl)
        }
    }
}

/// A list of edges that each weigh nothing weighs nothing.
pub(crate) proof fn lemma_zero_weight(m: Seq<Seq<Option<int>>>, l: Seq<(int, int)>)
    requires
        forall|i: int| 0 <= i < l.len() ==> edge_w(m, #[trigger] l[i]) == Some(0int),
    ensures
        list_weight(m, l) == Some(0int),
    decreases l.len(),
{
    if l.len() > 0 {
        assert forall|i: int| 0 <= i < l.drop_last().len() implies edge_w(m, #[trigger] l.drop_last()[i]) == Some(0int) by {
            assert(l.drop_last()[i] == l[i]);
        }
        lemma_zero_weight(m, l.drop_last());
        assert(edge_w(m, l[l.len() - 1]) == Some(0int));
    }
}

/// Law: the approximate Steiner tree weight of a set of terminals is at most
/// twice the total length of any set of graph edges `f` that connects them
/// all, so at most twice the weight of an optimal Steiner tree.
pub proof fn law_steiner_within_twice(es: Seq<(usize, usize, Edge)>, terms: Seq<usize>, f: Seq<int>)
    requires
        forall|i: int| 0 <= i < f.len() ==> 0 <= #[trigger] f[i] < es.len(),
        forall|i: int| 0 <= i < terms.len() ==> #[trigger] reach_in(es, f, terms[0] as int, terms[i] as int),
    ensures
        w_le(steiner_spec(es, terms), Some(2 * walk_cost(es, f, true) as int)),
{
    if terms.len() >= 2 {
        let n = terms.len() as int;
        let r = terms[0] as int;
        let m = closure_matrix(es, terms);
        let xs = Seq::new(terms.len(), |i: int| terms[i] as int);
        assert forall|i: int| 0 <= i < xs.len() implies #[trigger] reach_in(es, f, r, xs[i]) by {
            assert(reach_in(es, f, terms[0] as int, terms[i] as int));
        }
        let w = lemma_tour(es, f, xs, r);
        // the closed walk costs at most twice the edges
        assert forall|e: int| #[trigger] cnt(w, e) <= cnt(f + f, e) by {
            lemma_cnt_concat(f, f, e);
        }
        lemma_cost_by_counts(es, w, f + f);
        lemma_walk_concat(es, r, f, f);
        // the terminals read off it weigh no more
        let (l, last, pl) = lemma_scan(es, terms, w, w.len() as int);
        assert(w =~= w.take(pl) + w.skip(pl));
        lemma_walk_concat(es, r, w.take(pl), w.skip(pl));
        let l2 = Seq::new(terms.len(), |i: int| (term_at(terms, terms[i] as int), i));
        assert forall|i: int| 0 <= i < l2.len() implies edge_w(m, #[trigger] l2[i]) == Some(0int) by {
            assert(is_term(terms, terms[i] as int));
            let t = term_at(terms, terms[i] as int);
            lemma_shortest_self(es, terms[i]);
            assert(m[t][i] == shortest(es, terms[t], terms[i]));
        }
        lemma_zero_weight(m, l2);
        let lt = l + l2;
        lemma_weight_concat(m, l, l2);
        assert forall|i: int| 0 <= i < lt.len() implies 0 <= (#[trigger] lt[i]).0 < n && 0 <= lt[i].1 < n by {
            if i < l.len() {
                assert(lt[i] == l[i]);
            } else {
                assert(lt[i] == l2[i - l.len()]);
                assert(is_term(terms, terms[i - l.len()] as int));
            }
        }
        // every terminal index is reached from index 0
        assert forall|i: int| 0 <= i < l.len() implies #[trigger] lt[i] == l[i] by {}
        let t0 = term_at(terms, r);
        assert(is_term(terms, r));
        lemma_pw_empty(lt, 0);
        assert(lt[l.len() as int] == (t0, 0int));
        lemma_linked_push(lt, 0, 0, l.len() as int);
        assert(linked(lt, 0, t0));
        assert forall|x: int| 0 <= x < n implies #[trigger] linked(lt, 0, x) by {
            let tx = term_at(terms, terms[x] as int);
            assert(is_term(terms, terms[x] as int));
            assert(visits(es, r, w, xs[x]));
            let k = choose|k: int| 0 <= k <= w.len() && #[trigger] walk_end(es, r, w.take(k)) == xs[x];
            if k == 0 {
                assert(w.take(0) =~= Seq::<int>::empty());
                assert(tx == t0);
            } else {
                lemma_linked_prefix(l, lt, 0, tx);
            }
            assert(lt[l.len() as int + x] == (tx, x));
            lemma_linked_push(lt, 0, tx, l.len() as int + x);
        }
        assert(joins_all(n, lt));
        lemma_closure_is_distance_matrix(es, terms);
        law_prim_least(m, lt);
    }
}

/// A cheapest walk from `s` to `t`, when one exists.
pub open spec fn cheapest_walk(es: Seq<(usize, usize, Edge)>, s: usize, t: usize) -> Seq<int> {
    choose|p: Seq<int>| is_walk(es, s as int, t as int, p) && walk_cost(es, p, true) == shortest(es, s, t)->Some_0
}

/// The graph edges of a list of terminal pairs: the cheapest walks between
/// the terminals of each pair, one after the other.
pub open spec fn expand_pairs(es: Seq<(usize, usize, Edge)>, terms: Seq<usize>, l: Seq<(int, int)>) -> Seq<int>
    decreases l.len(),
{
    if l.len() == 0 {
        Seq::empty()
    } else {
        expand_pairs(es, terms, l.drop_last()) + cheapest_walk(es, terms[l.last().0], terms[l.last().1])
    }
}

/// A finite least cost has a walk of that cost.
proof fn lemma_cheapest_walk(es: Seq<(usize, usize, Edge)>, s: usize, t: usize)
    requires
        shortest(es, s, t) is Some,
    ensures
        is_walk(es, s as int, t as int, cheapest_walk(es, s, t)),
        walk_cost(es, cheapest_walk(es, s, t), true) == shortest(es, s, t)->Some_0,
{
    let d = choose|d: int| is_distance_from(es, seq![(s, 0usize)], t as int, d, true);
    let (k, p) = choose|k: int, p: Seq<int>|
        0 <= k < 1 && #[trigger] is_walk(es, seq![(s, 0usize)][k].0 as int, t as int, p) && walk_cost(es, p, true) == d;
    assert(is_walk(es, s as int, t as int, p) && walk_cost(es, p, true) == shortest(es, s, t)->Some_0);
}

/// Every index of a valid walk is an edge of the graph.
proof fn lemma_walk_indices(es: Seq<(usize, usize, Edge)>, s: int, p: Seq<int>)
    requires
        walk_valid(es, s, p),
    ensures
        forall|j: int| 0 <= j < p.len() ==> 0 <= #[trigger] p[j] < es.len(),
    decreases p.len(),
{
    if p.len() > 0 {
        lemma_walk_indices(es, s, p.drop_last());
        assert forall|j: int| 0 <= j < p.len() implies 0 <= #[trigger] p[j] < es.len() by {
            if j < p.len() - 1 {
                assert(p[j] == p.drop_last()[j]);
            }
        }
    }
}

/// With finite closure weight, the expansion of a list of terminal pairs
/// costs that weight, holds only graph edges, and holds the cheapest walk of
/// each of its pairs.
proof fn lemma_expand(es: Seq<(usize, usize, Edge)>, terms: Seq<usize>, l: Seq<(int, int)>, c: int)
    requires
        forall|i: int| 0 <= i < l.len() ==> 0 <= (#[trigger] l[i]).0 < terms.len() && 0 <= l[i].1 < terms.len(),
        list_weight(closure_matrix(es, terms), l) == Some(c),
    ensures
        walk_cost(es, expand_pairs(es, terms, l), true) == c,
        forall|j: int| 0 <= j < expand_pairs(es, terms, l).len() ==> 0 <= #[trigger] expand_pairs(es, terms, l)[j] < es.len(),
        forall|i: int|
            0 <= i < l.len() ==> {
                let w = cheapest_walk(es, terms[(#[trigger] l[i]).0], terms[l[i].1]);
                &&& is_walk(es, terms[l[i].0] as int, terms[l[i].1] as int, w)
                &&& uses_only(expand_pairs(es, terms, l), w)
            },
    decreases l.len(),
{
    if l.len() > 0 {
        let m = closure_matrix(es, terms);
        let l0 = l.drop_last();
        let e = l.last();
        assert forall|i: int| 0 <= i < l0.len() implies 0 <= (#[trigger] l0[i]).0 < terms.len() && 0 <= l0[i].1 < terms.len() by {
            assert(l0[i] == l[i]);
        }
        assert(0 <= e.0 < terms.len() && 0 <= e.1 < terms.len());
        assert(edge_w(m, e) == shortest(es, terms[e.0], terms[e.1]));
        assert(list_weight(m, l) == w_add(list_weight(m, l0), edge_w(m, e)));
        let c0 = list_weight(m, l0)->Some_0;
        lemma_expand(es, terms, l0, c0);
        lemma_cheapest_walk(es, terms[e.0], terms[e.1]);
        let a = expand_pairs(es, terms, l0);
        let w = cheapest_walk(es, terms[e.0], terms[e.1]);
        lemma_walk_concat(es, 0, a, w);
        lemma_walk_indices(es, terms[e.0] as int, w);
        let x = a + w;
        assert(expand_pairs(es, terms, l) == x);
        assert forall|j: int| 0 <= j < x.len() implies 0 <= #[trigger] x[j] < es.len() by {
            if j < a.len() {
                assert(x[j] == a[j]);
            } else {
                assert(x[j] == w[j - a.len()]);
            }
        }
        assert forall|i: int| 0 <= i < l.len() implies {
            let wi = cheapest_walk(es, terms[(#[trigger] l[i]).0], terms[l[i].1]);
            &&& is_walk(es, terms[l[i].0] as int, terms[l[i].1] as int, wi)
            &&& uses_only(x, wi)
        } by {
            let wi = cheapest_walk(es, terms[l[i].0], terms[l[i].1]);
            if i < l0.len() {
                assert(l0[i] == l[i]);
                assert forall|j: int| 0 <= j < wi.len() implies x.contains(#[trigger] wi[j]) by {
                    assert(a.contains(wi[j]));
                    let k = choose|k: int| 0 <= k < a.len() && a[k] == wi[j];
                    assert(x[k] == a[k]);
                }
            } else {
                assert forall|j: int| 0 <= j < wi.len() implies x.contains(#[trigger] wi[j]) by {
                    assert(x[a.len() + j] == w[j]);
                }
            }
        }
    }
}

/// Law: a finite approximate Steiner tree weight is the cost of a set of
/// graph edges that connects all the terminals (the cheapest walks between
/// the terminals joined by Prim's tree), so an optimal Steiner tree weighs
/// no more than the estimate; with `law_steiner_within_twice`, the estimate
/// lies between the optimum and twice the optimum.
pub proof fn law_steiner_tree_exists(es: Seq<(usize, usize, Edge)>, terms: Seq<usize>)
    requires
        terms.len() >= 1,
        steiner_spec(es, terms) is Some,
    ensures
        exists|f: Seq<int>|
            (forall|i: int| 0 <= i < f.len() ==> 0 <= #[trigger] f[i] < es.len())
                && (forall|i: int| 0 <= i < terms.len() ==> #[trigger] reach_in(es, f, terms[0] as int, terms[i] as int))
                && walk_cost(es, f, true) == steiner_spec(es, terms)->Some_0,
{
    let n = terms.len() as int;
    let m = closure_matrix(es, terms);
    lemma_closure_is_distance_matrix(es, terms);
    crate::spanning::law_prim_spans(m);
    law_steiner_is_closure_mst(es, terms, prim_edges(m, terms.len()));
    let l = prim_edges(m, terms.len());
    let c = steiner_spec(es, terms)->Some_0;
    assert(forall|i: int| 0 <= i < l.len() ==> 0 <= (#[trigger] l[i]).0 < n && 0 <= l[i].1 < n);
    lemma_expand(es, terms, l, c);
    let f = expand_pairs(es, terms, l);
    // walking along the pairs of `l` is walking along `f`
    assert forall|i: int| 0 <= i < terms.len() implies #[trigger] reach_in(es, f, terms[0] as int, terms[i] as int) by {
        assert(linked(l, 0, i));
        let q = choose|q: Seq<int>| #[trigger] pw_valid(l, 0, q) && pw_end(l, 0, q) == i;
        lemma_expand_reach(es, terms, l, f, q);
    }
}

/// A walk along the terminal pairs of `l` from index 0 is matched by a walk
/// along graph edges that hold the cheapest walk of each pair.
proof fn lemma_expand_reach(es: Seq<(usize, usize, Edge)>, terms: Seq<usize>, l: Seq<(int, int)>, f: Seq<int>, q: Seq<int>)
    requires
        terms.len() >= 1,
        pw_valid(l, 0, q),
        forall|i: int| 0 <= i < l.len() ==> 0 <= (#[trigger] l[i]).0 < terms.len() && 0 <= l[i].1 < terms.len(),
        forall|i: int|
            0 <= i < l.len() ==> {
                let w = cheapest_walk(es, terms[(#[trigger] l[i]).0], terms[l[i].1]);
                &&& is_walk(es, terms[l[i].0] as int, terms[l[i].1] as int, w)
                &&& uses_only(f, w)
            },
    ensures
        0 <= pw_end(l, 0, q) < terms.len(),
        reach_in(es, f, terms[0] as int, terms[pw_end(l, 0, q)] as int),
    decreases q.len(),
{
    if q.len() == 0 {
        lemma_reach_refl(es, f, terms[0] as int);
    } else {
        let q0 = q.drop_last();
        lemma_expand_reach(es, terms, l, f, q0);
        let y = pw_end(l, 0, q0);
        let i = q.last();
        let e = l[i];
        assert(0 <= e.0 < terms.len() && 0 <= e.1 < terms.len());
        let w = cheapest_walk(es, terms[e.0], terms[e.1]);
        assert(is_walk(es, terms[e.0] as int, terms[e.1] as int, w) && uses_only(f, w));
        assert(reach_in(es, f, terms[e.0] as int, terms[e.1] as int));
        if e.0 == y {
            lemma_reach_trans(es, f, terms[0] as int, terms[y] as int, terms[e.1] as int);
        } else {
            lemma_reach_sym(es, f, terms[e.0] as int, terms[e.1] as int);
            lemma_reach_trans(es, f, terms[0] as int, terms[y] as int, terms[e.0] as int);
        }
    }
}

} // verus!
