//! A binary min-heap of `(cost, node)` entries, ordered by cost: the queue of
//! the shortest-distance searches.
use vstd::prelude::*;

verus! {

/// The heap order: no entry costs less than its parent.
pub open spec fn heap_ordered(s: Seq<(u128, usize)>) -> bool {
    forall|i: int| 0 < i < s.len() ==> s[(i - 1) / 2].0 <= #[trigger] s[i].0
}

/// A queue of `(cost, node)` entries that hands out a cheapest one.
pub struct CostQueue {
    data: Vec<(u128, usize)>,
}

impl View for CostQueue {
    type V = Seq<(u128, usize)>;

    /// The entries in heap layout.
    closed spec fn view(&self) -> Seq<(u128, usize)> {
        self.data@
    }
}

/// The root of a heap-ordered sequence is a cheapest entry.
proof fn lemma_root_cheapest(s: Seq<(u128, usize)>, i: int)
    requires
        heap_ordered(s),
        0 <= i < s.len(),
    ensures
        s[0].0 <= s[i].0,
    decreases i,
{
    if i > 0 {
        lemma_root_cheapest(s, (i - 1) / 2);
    }
}

/// Swapping two entries keeps the entries.
proof fn lemma_swap_multiset(s: Seq<(u128, usize)>, i: int, j: int)
    requires
        0 <= i < s.len(),
        0 <= j < s.len(),
    ensures
        s.update(i, s[j]).update(j, s[i]).to_multiset() == s.to_multiset(),
{
    broadcast use vstd::multiset::group_multiset_axioms;

    let t = s.update(i, s[j]);
    vstd::seq_lib::to_multiset_update(s, i, s[j]);
    vstd::seq_lib::to_multiset_update(t, j, s[i]);
    assert(s.to_multiset().count(s[i]) > 0) by {
        vstd::seq_lib::to_multiset_contains(s, s[i]);
    }
    assert(t[j] == s[j]);
    assert(s.to_multiset().insert(s[j]).remove(s[i]).count(s[j]) > 0);
    assert(s.update(i, s[j]).update(j, s[i]).to_multiset() =~= s.to_multiset());
}

impl CostQueue {
    /// The heap order holds.
    pub closed spec fn wf(&self) -> bool {
        heap_ordered(self.data@)
    }

    /// An empty queue.
    pub fn new() -> (q: Self)
        ensures
            q.wf(),
            q@ == Seq::<(u128, usize)>::empty(),
    {
        CostQueue { data: Vec::new() }
    }

    /// The number of entries.
    pub fn len(&self) -> (n: usize)
        ensures
            n == self@.len(),
    {
        self.data.len()
    }

    /// Adds an entry.
    #[verifier::spinoff_prover]
    pub fn push(&mut self, x: (u128, usize))
        requires
            old(self).wf(),
        ensures
            final(self).wf(),
            final(self)@.to_multiset() == old(self)@.push(x).to_multiset(),
            final(self)@.len() == old(self)@.len() + 1,
    {
        let ghost start = self.data@.push(x);
        self.data.push(x);
        let mut k: usize = self.data.len() - 1;
        while k > 0 && self.data[k].0 < self.data[(k - 1) / 2].0
            invariant
                k < self.data@.len(),
                self.data@.len() == start.len(),
                self.data@.to_multiset() == start.to_multiset(),
                forall|i: int| 0 < i < self.data@.len() && i != k ==> self.data@[(i - 1) / 2].0 <= #[trigger] self.data@[i].0,
                k > 0 ==> forall|i: int|
                    0 < i < self.data@.len() && (i - 1) / 2 == k ==> self.data@[(k - 1) / 2].0 <= #[trigger] self.data@[i].0,
            decreases k,
        {
            let p = (k - 1) / 2;
            let a = self.data[k];
            let b = self.data[p];
            let ghost before = self.data@;
            self.data.set(k, b);
            self.data.set(p, a);
            proof {
                lemma_swap_multiset(before, k as int, p as int);
                assert(self.data@ == before.update(k as int, before[p as int]).update(p as int, before[k as int]));
                assert forall|i: int| 0 < i < self.data@.len() && i != p implies self.data@[(i - 1) / 2].0 <= #[trigger] self.data@[i].0 by {
                    let q = (i - 1) / 2;
                    if i == k {
                    } else if q == k {
                        assert(before[(k as int - 1) / 2].0 <= before[i].0);
                    } else if q == p {
                        assert(before[p as int].0 <= before[i].0);
                    } else {
                        assert(before[q].0 <= before[i].0);
                    }
                }
                if p > 0 {
                    assert forall|i: int|
                        0 < i < self.data@.len() && (i - 1) / 2 == p implies self.data@[(p as int - 1) / 2].0 <= #[trigger] self.data@[i].0 by {
                        assert(before[(p as int - 1) / 2].0 <= before[p as int].0);
                        if i == k {
                        } else {
                            assert(before[p as int].0 <= before[i].0);
                        }
                    }
                }
            }
            k = p;
        }
        proof {
            assert forall|i: int| 0 < i < self.data@.len() implies self.data@[(i - 1) / 2].0 <= #[trigger] self.data@[i].0 by {
                if i == k {
                }
            }
        }
    }

    /// Removes and returns a cheapest entry.
    #[verifier::spinoff_prover]
    pub fn pop_min(&mut self) -> (x: (u128, usize))
        requires
            old(self).wf(),
            old(self)@.len() > 0,
        ensures
            final(self).wf(),
            x == old(self)@[0],
            forall|i: int| 0 <= i < old(self)@.len() ==> x.0 <= #[trigger] old(self)@[i].0,
            final(self)@.to_multiset() == old(self)@.remove(0).to_multiset(),
            final(self)@.len() == old(self)@.len() - 1,
    {
        proof {
            assert forall|i: int| 0 <= i < self.data@.len() implies self.data@[0].0 <= #[trigger] self.data@[i].0 by {
                lemma_root_cheapest(self.data@, i);
            }
        }
        let ghost orig = self.data@;
        let x = self.data[0];
        let last = match self.data.pop() {
            Some(y) => y,
            None => {
                proof {
                    assert(false);
                }
                return x;
            },
        };
        let ghost rest = self.data@;
        proof {
        }
        if self.data.len() == 0 {
            proof {
                assert(orig.len() == 1);
                assert(orig.remove(0) =~= Seq::<(u128, usize)>::empty());
            }
            return x;
        }
        self.data.set(0, last);
        let ghost start = self.data@;
        proof {
            // the entries other than the root: the last one moved to the root
            assert(start == rest.update(0, last));
            assert(rest.push(last) =~= orig);
            vstd::seq_lib::to_multiset_update(rest, 0, last);
            vstd::seq_lib::to_multiset_build(rest, last);
            vstd::seq_lib::to_multiset_remove(orig, 0);
            broadcast use vstd::multiset::group_multiset_axioms;
            assert(orig.to_multiset().count(orig[0]) > 0) by {
                vstd::seq_lib::to_multiset_contains(orig, orig[0]);
            }
            assert(rest.to_multiset().count(rest[0]) > 0) by {
                vstd::seq_lib::to_multiset_contains(rest, rest[0]);
            }
            assert(rest[0] == orig[0]);
            assert(start.to_multiset() =~= orig.remove(0).to_multiset());
        }
        let n = self.data.len();
        let mut k: usize = 0;
        loop
            invariant
                n == self.data@.len(),
                n == orig.len() - 1,
                k < n,
                self.data@.to_multiset() == orig.remove(0).to_multiset(),
                forall|i: int| 0 < i < n && (i - 1) / 2 != k ==> self.data@[(i - 1) / 2].0 <= #[trigger] self.data@[i].0,
                k > 0 ==> forall|i: int| 0 < i < n && (i - 1) / 2 == k ==> self.data@[(k - 1) / 2].0 <= #[trigger] self.data@[i].0,
            ensures
                heap_ordered(self.data@),
                self.data@.to_multiset() == orig.remove(0).to_multiset(),
                self.data@.len() == n,
            decreases n - k,
        {
            if k >= n / 2 {
                proof {
                    assert forall|i: int| 0 < i < n implies self.data@[(i - 1) / 2].0 <= #[trigger] self.data@[i].0 by {
                        assert((i - 1) / 2 != k);
                    }
                }
                break;
            }
            let l = 2 * k + 1;
            let r = l + 1;
            let c = if r < n && self.data[r].0 < self.data[l].0 {
                r
            } else {
                l
            };
            if self.data[k].0 <= self.data[c].0 {
                proof {
                    assert forall|i: int| 0 < i < n implies self.data@[(i - 1) / 2].0 <= #[trigger] self.data@[i].0 by {
                        if (i - 1) / 2 == k {
                            assert(i == l || i == r);
                        }
                    }
                }
                break;
            }
            let a = self.data[k];
            let b = self.data[c];
            let ghost before = self.data@;
            self.data.set(k, b);
            self.data.set(c, a);
            proof {
                lemma_swap_multiset(before, k as int, c as int);
                assert(self.data@ == before.update(k as int, before[c as int]).update(c as int, before[k as int]));
                assert forall|i: int| 0 < i < n && (i - 1) / 2 != c implies self.data@[(i - 1) / 2].0 <= #[trigger] self.data@[i].0 by {
                    let q = (i - 1) / 2;
                    if q == k {
                        assert(i == l || i == r);
                    } else if i == k {
                        assert(before[(k as int - 1) / 2].0 <= before[c as int].0);
                    } else {
                        assert(before[q].0 <= before[i].0);
                    }
                }
                assert forall|i: int| 0 < i < n && (i - 1) / 2 == c implies self.data@[(c as int - 1) / 2].0 <= #[trigger] self.data@[i].0 by {
                    assert((c as int - 1) / 2 == k);
                    assert(before[c as int].0 <= before[i].0);
                }
            }
            k = c;
        }
        x
    }
}

} // verus!
