//! Disjoint-set forest with path compression.
//!
//! The abstract state of a `UnionFind` over `n` elements is the sequence of
//! representatives: `uf@[i]` is the root of the tree that holds `i`.
use vstd::prelude::*;

verus! {

/// The root reached from `i` by following parent links.  Ranks strictly grow
/// along parent links and stay below `bound`, which makes the walk finite.
pub closed spec fn root_in(parent: Seq<usize>, rank: Seq<nat>, bound: nat, i: int) -> int
    decreases bound - rank[i],
{
    if 0 <= i < parent.len() && parent[i] != i && 0 <= parent[i] < parent.len()
        && rank[i] < rank[parent[i] as int] && rank[parent[i] as int] < bound {
        root_in(parent, rank, bound, parent[i] as int)
    } else {
        i
    }
}

/// Structural invariant of the forest.
pub closed spec fn forest_wf(parent: Seq<usize>, rank: Seq<nat>, bound: nat) -> bool {
    &&& parent.len() == rank.len()
    &&& forall|i: int| 0 <= i < parent.len() ==> #[trigger] parent[i] < parent.len()
    &&& forall|i: int| 0 <= i < parent.len() ==> #[trigger] rank[i] < bound
    &&& forall|i: int|
        0 <= i < parent.len() && #[trigger] parent[i] != i ==> rank[i] < rank[parent[i] as int]
}

/// A disjoint-set structure over the elements `0..n`.
pub struct UnionFind {
    parent: Vec<usize>,
    rank: Ghost<Seq<nat>>,
    bound: Ghost<nat>,
}

impl View for UnionFind {
    type V = Seq<int>;

    closed spec fn view(&self) -> Seq<int> {
        Seq::new(
            self.parent@.len(),
            |i: int| root_in(self.parent@, self.rank@, self.bound@, i),
        )
    }
}

/// Properties of a well-formed forest that the operations rely on.
proof fn lemma_root_facts(parent: Seq<usize>, rank: Seq<nat>, bound: nat, i: int)
    requires
        forest_wf(parent, rank, bound),
        0 <= i < parent.len(),
    ensures
        ({
            let r = root_in(parent, rank, bound, i);
            &&& 0 <= r < parent.len()
            &&& parent[r] == r
            &&& rank[i] <= rank[r]
            &&& parent[i] != i ==> rank[i] < rank[r]
            &&& parent[i] != i ==> r == root_in(parent, rank, bound, parent[i] as int)
            &&& parent[i] == i ==> r == i
        }),
    decreases bound - rank[i],
{
    if parent[i] != i {
        let p = parent[i] as int;
        assert(rank[i] < rank[p]);
        assert(rank[p] < bound);
        lemma_root_facts(parent, rank, bound, p);
    }
}

/// Two rankings that are both valid for the same parent links give the same roots.
proof fn lemma_root_rank_independent(
    parent: Seq<usize>,
    rank1: Seq<nat>,
    bound1: nat,
    rank2: Seq<nat>,
    bound2: nat,
    i: int,
)
    requires
        forest_wf(parent, rank1, bound1),
        forest_wf(parent, rank2, bound2),
        0 <= i < parent.len(),
    ensures
        root_in(parent, rank1, bound1, i) == root_in(parent, rank2, bound2, i),
    decreases bound1 - rank1[i],
{
    if parent[i] != i {
        let p = parent[i] as int;
        assert(rank1[p] < bound1);
        lemma_root_rank_independent(parent, rank1, bound1, rank2, bound2, p);
    }
}

/// Pointing `x` directly at its own root keeps every root unchanged.
proof fn lemma_compress(parent: Seq<usize>, rank: Seq<nat>, bound: nat, x: int, r: int, k: int)
    requires
        forest_wf(parent, rank, bound),
        0 <= x < parent.len(),
        0 <= k < parent.len(),
        r == root_in(parent, rank, bound, x),
        parent[x] != x,
    ensures
        forest_wf(parent.update(x, r as usize), rank, bound),
        root_in(parent.update(x, r as usize), rank, bound, k) == root_in(parent, rank, bound, k),
    decreases bound - rank[k],
{
    lemma_root_facts(parent, rank, bound, x);
    let p2 = parent.update(x, r as usize);
    assert(forest_wf(p2, rank, bound)) by {
        assert forall|i: int| 0 <= i < p2.len() && #[trigger] p2[i] != i implies rank[i] < rank[
            p2[i] as int] by {
            if i != x {
                assert(p2[i] == parent[i]);
            }
        }
        assert forall|i: int| 0 <= i < p2.len() implies #[trigger] p2[i] < p2.len() by {
            if i != x {
                assert(p2[i] == parent[i]);
            }
        }
    }
    if k == x {
        lemma_root_facts(p2, rank, bound, r);
        assert(p2[r] == r);
        assert(root_in(p2, rank, bound, r) == r);
        assert(rank[r] < bound);
    } else if parent[k] != k {
        let p = parent[k] as int;
        assert(rank[p] < bound);
        lemma_compress(parent, rank, bound, x, r, p);
        assert(p2[k] == parent[k]);
    } else {
        assert(p2[k] == parent[k]);
    }
}

/// Linking root `a` below root `b` merges exactly the class of `a` into the class of `b`.
proof fn lemma_link(parent: Seq<usize>, rank: Seq<nat>, bound: nat, a: int, b: int, k: int)
    requires
        forest_wf(parent, rank, bound),
        0 <= a < parent.len(),
        0 <= b < parent.len(),
        0 <= k < parent.len(),
        parent[a] == a,
        parent[b] == b,
        a != b,
        rank[a] < rank[b],
    ensures
        forest_wf(parent.update(a, b as usize), rank, bound),
        root_in(parent.update(a, b as usize), rank, bound, k) == (if root_in(
            parent,
            rank,
            bound,
            k,
        ) == a {
            b
        } else {
            root_in(parent, rank, bound, k)
        }),
    decreases bound - rank[k],
{
    let p2 = parent.update(a, b as usize);
    assert(forest_wf(p2, rank, bound)) by {
        assert forall|i: int| 0 <= i < p2.len() && #[trigger] p2[i] != i implies rank[i] < rank[
            p2[i] as int] by {
            if i != a {
                assert(p2[i] == parent[i]);
            }
        }
        assert forall|i: int| 0 <= i < p2.len() implies #[trigger] p2[i] < p2.len() by {
            if i != a {
                assert(p2[i] == parent[i]);
            }
        }
    }
    lemma_root_facts(parent, rank, bound, k);
    if k == a {
        assert(root_in(p2, rank, bound, b) == b);
        assert(rank[b] < bound);
    } else if parent[k] != k {
        let p = parent[k] as int;
        assert(rank[p] < bound);
        lemma_link(parent, rank, bound, a, b, p);
        assert(p2[k] == parent[k]);
    } else {
        assert(p2[k] == parent[k]);
    }
}

/// The representatives after merging the set of `i` into the set of `j`.
pub open spec fn merged(v: Seq<int>, i: int, j: int) -> Seq<int> {
    Seq::new(v.len(), |k: int| if v[k] == v[i] { v[j] } else { v[k] })
}

/// A sequence of representatives: each lies in range and represents itself.
pub open spec fn is_partition(v: Seq<int>) -> bool {
    forall|k: int| 0 <= k < v.len() ==> 0 <= #[trigger] v[k] < v.len() && v[v[k]] == v[k]
}

/// Law: merging two sets of a partition yields a partition in which `i` and `j`
/// share a representative; two elements share one afterwards exactly when they did
/// before, or one was with `i` and the other with `j`.
pub proof fn law_merge_joins(v: Seq<int>, i: int, j: int)
    requires
        is_partition(v),
        0 <= i < v.len(),
        0 <= j < v.len(),
    ensures
        is_partition(merged(v, i, j)),
        merged(v, i, j)[i] == merged(v, i, j)[j],
        forall|k: int, l: int|
            0 <= k < v.len() && 0 <= l < v.len() ==> (#[trigger] merged(v, i, j)[k]
                == #[trigger] merged(v, i, j)[l] <==> (v[k] == v[l] || (v[k] == v[i] && v[l]
                == v[j]) || (v[k] == v[j] && v[l] == v[i]))),
{
    let m = merged(v, i, j);
    assert forall|k: int| 0 <= k < m.len() implies 0 <= #[trigger] m[k] < m.len() && m[m[k]]
        == m[k] by {
        assert(v[v[j]] == v[j]);
        assert(v[v[k]] == v[k]);
    }
    assert forall|k: int, l: int|
        0 <= k < v.len() && 0 <= l < v.len() implies (#[trigger] m[k] == #[trigger] m[l] <==> (
    v[k] == v[l] || (v[k] == v[i] && v[l] == v[j]) || (v[k] == v[j] && v[l] == v[i]))) by {
        assert(v[v[j]] == v[j]);
        assert(v[v[i]] == v[i]);
    }
}

impl UnionFind {
    /// Law: the representatives always form a partition of `0..n`.
    pub proof fn law_representatives(&self)
        requires
            self.wf(),
        ensures
            is_partition(self@),
    {
        assert forall|k: int| 0 <= k < self@.len() implies 0 <= #[trigger] self@[k] < self@.len()
            && self@[self@[k]] == self@[k] by {
            lemma_root_facts(self.parent@, self.rank@, self.bound@, k);
            let r = self@[k];
            lemma_root_facts(self.parent@, self.rank@, self.bound@, r);
        }
    }

    /// Well-formedness: parent links stay in range and lead to a root.
    pub closed spec fn wf(&self) -> bool {
        forest_wf(self.parent@, self.rank@, self.bound@)
    }

    /// Creates `n` singleton sets `{0}, ..., {n - 1}`.
    pub fn new(n: usize) -> (uf: Self)
        ensures
            uf.wf(),
            uf@.len() == n,
            forall|i: int| 0 <= i < n ==> #[trigger] uf@[i] == i,
    {
        let mut parent: Vec<usize> = Vec::new();
        let mut k: usize = 0;
        while k < n
            invariant
                k <= n,
                parent@.len() == k,
                forall|i: int| 0 <= i < k ==> #[trigger] parent@[i] == i,
            decreases n - k,
        {
            parent.push(k);
            k = k + 1;
        }
        let ghost rank = Seq::new(n as nat, |i: int| 0nat);
        let uf = UnionFind { parent, rank: Ghost(rank), bound: Ghost(1nat) };
        assert forall|i: int| 0 <= i < n implies #[trigger] uf@[i] == i by {
            assert(uf.parent@[i] == i);
        }
        uf
    }

    /// The parent link of `i`: the element it points at, itself for a
    /// representative.
    pub closed spec fn link(&self, i: int) -> int {
        self.parent@[i] as int
    }

    /// Returns the representative of `i`, compressing the path on the way:
    /// afterwards `i` points straight at its representative.
    pub fn find(&mut self, i: usize) -> (r: usize)
        requires
            old(self).wf(),
            i < old(self)@.len(),
        ensures
            final(self).wf(),
            final(self)@ == old(self)@,
            r == old(self)@[i as int],
            final(self).link(i as int) == r,
    {
        self.find_compress(i)
    }

    #[verifier::spinoff_prover]
    fn find_compress(&mut self, i: usize) -> (r: usize)
        requires
            old(self).wf(),
            i < old(self)@.len(),
        ensures
            final(self).wf(),
            final(self)@ == old(self)@,
            r == old(self)@[i as int],
            final(self).rank@ == old(self).rank@,
            final(self).bound@ == old(self).bound@,
            final(self).parent@[i as int] == r,
        decreases old(self).bound@ - old(self).rank@[i as int],
    {
        proof {
            lemma_root_facts(self.parent@, self.rank@, self.bound@, i as int);
        }
        if self.parent[i] == i {
            i
        } else {
            let p = self.parent[i];
            let ghost p0 = self.parent@;
            proof {
                assert(self.rank@[p as int] < self.bound@);
            }
            let root = self.find_compress(p);
            let ghost p1 = self.parent@;
            proof {
                // roots are unchanged by the recursive call
                assert(root_in(p1, self.rank@, self.bound@, i as int) == root_in(
                    p0,
                    self.rank@,
                    self.bound@,
                    i as int,
                )) by {
                    assert(self@[i as int] == old(self)@[i as int]);
                }
                lemma_root_facts(p1, self.rank@, self.bound@, i as int);
                lemma_root_facts(p0, self.rank@, self.bound@, p as int);
                assert(root as int == root_in(p0, self.rank@, self.bound@, i as int));
                if p1[i as int] == i {
                    // impossible: i has a parent of higher rank in p0, and its root differs from i
                    assert(root_in(p1, self.rank@, self.bound@, i as int) == i);
                    assert(self.rank@[i as int] < self.rank@[root as int]);
                }
                assert forall|k: int| 0 <= k < p1.len() implies root_in(
                    p1.update(i as int, root),
                    self.rank@,
                    self.bound@,
                    k,
                ) == root_in(p1, self.rank@, self.bound@, k) by {
                    lemma_compress(p1, self.rank@, self.bound@, i as int, root as int, k);
                }
                lemma_compress(p1, self.rank@, self.bound@, i as int, root as int, 0);
            }
            self.parent.set(i, root);
            proof {
                assert(self.parent@ == p1.update(i as int, root));
                assert(self@ =~= old(self)@);
            }
            root
        }
    }

    /// Merges the sets that hold `i` and `j`: every element of the set of `i`
    /// takes the representative of `j`.
    #[verifier::spinoff_prover]
    pub fn union(&mut self, i: usize, j: usize)
        requires
            old(self).wf(),
            i < old(self)@.len(),
            j < old(self)@.len(),
        ensures
            final(self).wf(),
            final(self)@ == merged(old(self)@, i as int, j as int),
    {
        let ri = self.find(i);
        let rj = self.find(j);
        if ri != rj {
            let ghost p1 = self.parent@;
            let ghost r1 = self.rank@;
            let ghost b1 = self.bound@;
            let ghost new_rank_j: nat = if r1[rj as int] > r1[ri as int] {
                r1[rj as int]
            } else {
                r1[ri as int] + 1
            };
            let ghost r2 = r1.update(rj as int, new_rank_j);
            let ghost b2: nat = if b1 > new_rank_j {
                b1
            } else {
                new_rank_j + 1
            };
            proof {
                lemma_root_facts(p1, r1, b1, i as int);
                lemma_root_facts(p1, r1, b1, j as int);
                assert(forest_wf(p1, r2, b2)) by {
                    assert forall|x: int|
                        0 <= x < p1.len() && #[trigger] p1[x] != x implies r2[x] < r2[
                        p1[x] as int] by {
                        if x == rj {
                        } else if p1[x] as int == rj {
                        } else {
                        }
                    }
                    assert forall|x: int| 0 <= x < p1.len() implies #[trigger] r2[x] < b2 by {
                        if x == rj {
                        }
                    }
                }
                assert forall|k: int| 0 <= k < p1.len() implies root_in(p1, r2, b2, k) == root_in(
                    p1,
                    r1,
                    b1,
                    k,
                ) by {
                    lemma_root_rank_independent(p1, r2, b2, r1, b1, k);
                }
                assert forall|k: int| 0 <= k < p1.len() implies root_in(
                    p1.update(ri as int, rj),
                    r2,
                    b2,
                    k,
                ) == (if root_in(p1, r2, b2, k) == ri {
                    rj as int
                } else {
                    root_in(p1, r2, b2, k)
                }) by {
                    lemma_link(p1, r2, b2, ri as int, rj as int, k);
                }
                lemma_link(p1, r2, b2, ri as int, rj as int, 0);
            }
            self.parent.set(ri, rj);
            self.rank = Ghost(r2);
            self.bound = Ghost(b2);
            proof {
                assert(self.parent@ == p1.update(ri as int, rj));
                assert forall|k: int| 0 <= k < old(self)@.len() implies #[trigger] self@[k] == (
                if old(self)@[k] == old(self)@[i as int] {
                    old(self)@[j as int]
                } else {
                    old(self)@[k]
                }) by {
                    assert(self@[k] == root_in(p1.update(ri as int, rj), r2, b2, k));
                }
                assert(self@ =~= merged(old(self)@, i as int, j as int));
            }
        } else {
            proof {
                assert(self@ =~= merged(old(self)@, i as int, j as int));
            }
        }
    }
}

} // verus!
