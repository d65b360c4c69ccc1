//! A binary min-heap of pairs `(key, vertex)`, ordered lexicographically.
use vstd::multiset::Multiset;
use vstd::prelude::*;

verus! {

broadcast use vstd::seq_lib::group_to_multiset_ensures;

/// `a <= b` in the lexicographic order of pairs.
pub open spec fn pair_le(a: (usize, usize), b: (usize, usize)) -> bool {
    a.0 < b.0 || (a.0 == b.0 && a.1 <= b.1)
}

/// The parent of the position `k > 0` of a binary heap.
pub open spec fn parent(k: int) -> int {
    (k - 1) / 2
}

/// Every item is at least its parent.
pub open spec fn heap_order(s: Seq<(usize, usize)>) -> bool {
    forall|k: int| 0 < k < s.len() ==> pair_le(s[parent(k)], #[trigger] s[k])
}

/// A multiset of pairs from which the least one can be taken out.
pub struct MinHeap {
    data: Vec<(usize, usize)>,
}

/// The root of a heap is its least item.
proof fn lemma_root_min(s: Seq<(usize, usize)>, k: int)
    requires
        heap_order(s),
        0 <= k < s.len(),
    ensures
        pair_le(s[0], s[k]),
    decreases k,
{
    if k > 0 {
        assert(pair_le(s[parent(k)], s[k]));
        lemma_root_min(s, parent(k));
    }
}

/// Exchanging two items keeps the multiset.
proof fn lemma_swap_multiset(s: Seq<(usize, usize)>, a: int, b: int)
    requires
        0 <= a < s.len(),
        0 <= b < s.len(),
    ensures
        s.update(a, s[b]).update(b, s[a]).to_multiset() == s.to_multiset(),
{
    broadcast use vstd::multiset::group_multiset_axioms;

    let s1 = s.update(a, s[b]);
    assert(s1.to_multiset() == s.to_multiset().insert(s[b]).remove(s[a]));
    if a == b {
        assert(s.update(a, s[b]) =~= s);
        assert(s1.update(b, s[a]) =~= s);
    } else {
        assert(s1[b] == s[b]);
        assert(s1.update(b, s[a]).to_multiset() == s1.to_multiset().insert(s[a]).remove(s[b]));
        assert(s.to_multiset().count(s[a]) > 0);
        assert(s.to_multiset().count(s[b]) > 0);
        assert(s1.update(b, s[a]).to_multiset() =~= s.to_multiset());
    }
}

impl MinHeap {
    /// The items.
    pub closed spec fn view(&self) -> Multiset<(usize, usize)> {
        self.data@.to_multiset()
    }

    /// The items are stored in heap order.
    pub closed spec fn wf(&self) -> bool {
        heap_order(self.data@)
    }

    /// The empty heap.
    pub fn new() -> (h: Self)
        ensures
            h.wf(),
            h@ == Multiset::<(usize, usize)>::empty(),
    {
        let h = MinHeap { data: Vec::new() };
        assert(h.data@ =~= Seq::<(usize, usize)>::empty());
        h
    }

    /// The number of items.
    pub fn len(&self) -> (r: usize)
        ensures
            r == self@.len(),
    {
        self.data.len()
    }

    /// Adds `x`.
    pub fn push(&mut self, x: (usize, usize))
        requires
            old(self).wf(),
        ensures
            final(self).wf(),
            final(self)@ == old(self)@.insert(x),
    {
        self.data.push(x);
        let mut i = self.data.len() - 1;
        while i > 0
            invariant
                0 <= i < self.data@.len(),
                self.data@.to_multiset() == old(self)@.insert(x),
                forall|k: int| 0 < k < self.data@.len() && k != i ==> pair_le(self.data@[parent(k)], #[trigger] self.data@[k]),
                i > 0 ==> forall|c: int|
                    0 < c < self.data@.len() && parent(c) == i ==> pair_le(
                        self.data@[parent(i as int)],
                        #[trigger] self.data@[c],
                    ),
            ensures
                heap_order(self.data@),
                self.data@.to_multiset() == old(self)@.insert(x),
            decreases i,
        {
            let p = (i - 1) / 2;
            let a = self.data[p];
            let b = self.data[i];
            if a.0 < b.0 || (a.0 == b.0 && a.1 <= b.1) {
                break;
            }
            let ghost s = self.data@;
            self.data.set(p, b);
            self.data.set(i, a);
            proof {
                lemma_swap_multiset(s, p as int, i as int);
                assert(self.data@ == s.update(p as int, s[i as int]).update(i as int, s[p as int]));
                assert forall|k: int| 0 < k < self.data@.len() && k != p implies pair_le(
                    self.data@[parent(k)],
                    #[trigger] self.data@[k],
                ) by {
                    if k != i && parent(k) == p {
                        assert(pair_le(s[p as int], s[k]));
                    } else if parent(k) == i {
                        assert(pair_le(s[parent(i as int)], s[k]));
                    }
                }
                if p > 0 {
                    assert forall|c: int| 0 < c < self.data@.len() && parent(c) == p implies pair_le(
                        self.data@[parent(p as int)],
                        #[trigger] self.data@[c],
                    ) by {
                        assert(pair_le(s[parent(p as int)], s[p as int]));
                        if c != i {
                            assert(pair_le(s[p as int], s[c]));
                        }
                    }
                }
            }
            i = p;
        }
    }

    /// Takes out a least item, or returns `None` if there is none.
    pub fn pop(&mut self) -> (r: Option<(usize, usize)>)
        requires
            old(self).wf(),
        ensures
            final(self).wf(),
            old(self)@.len() == 0 ==> r is None && final(self)@ == old(self)@,
            old(self)@.len() > 0 ==> (r matches Some(x) && old(self)@.contains(x) && final(self)@ == old(self)@.remove(x)
                && forall|y: (usize, usize)| old(self)@.contains(y) ==> pair_le(x, y)),
    {
        let ghost s0 = self.data@;
        if self.data.len() == 0 {
            return None;
        }
        let top = self.data[0];
        proof {
            assert forall|y: (usize, usize)| s0.to_multiset().contains(y) implies pair_le(top, y) by {
                assert(s0.contains(y));
                let k = choose|k: int| 0 <= k < s0.len() && s0[k] == y;
                lemma_root_min(s0, k);
            }
            assert(s0.drop_last().push(s0.last()) =~= s0);
        }
        let last = self.data.pop().unwrap();
        if self.data.len() == 0 {
            proof {
                assert(s0.to_multiset() == Seq::<(usize, usize)>::empty().to_multiset().insert(last));
                assert(self.data@ =~= Seq::<(usize, usize)>::empty());
                assert(self.data@.to_multiset() =~= s0.to_multiset().remove(top)) by {
                    broadcast use vstd::multiset::group_multiset_axioms;
                }
            }
            return Some(top);
        }
        let ghost s1 = self.data@;
        self.data.set(0, last);
        proof {
            assert(s1 == s0.drop_last());
            assert(s0.to_multiset() == s1.to_multiset().insert(last));
            assert(self.data@.to_multiset() == s1.to_multiset().insert(last).remove(s1[0]));
            assert(s1[0] == top);
        }
        let n = self.data.len();
        let mut i: usize = 0;
        while i < n / 2
            invariant
                n == self.data@.len(),
                0 <= i < n,
                self.data@.to_multiset() == s0.to_multiset().remove(top),
                forall|k: int| 0 < k < n && parent(k) != i ==> pair_le(self.data@[parent(k)], #[trigger] self.data@[k]),
                i > 0 ==> forall|c: int|
                    0 < c < n && parent(c) == i ==> pair_le(self.data@[parent(i as int)], #[trigger] self.data@[c]),
            ensures
                heap_order(self.data@),
                self.data@.to_multiset() == s0.to_multiset().remove(top),
            decreases n - i,
        {
            let l = 2 * i + 1;
            let mut m = l;
            if l + 1 < n {
                let x = self.data[l];
                let y = self.data[l + 1];
                if y.0 < x.0 || (y.0 == x.0 && y.1 < x.1) {
                    m = l + 1;
                }
            }
            let a = self.data[i];
            let b = self.data[m];
            if a.0 < b.0 || (a.0 == b.0 && a.1 <= b.1) {
                proof {
                    assert forall|k: int| 0 < k < n && parent(k) == i implies pair_le(
                        self.data@[parent(k)],
                        #[trigger] self.data@[k],
                    ) by {
                        assert(k == l || k == l + 1);
                    }
                }
                break;
            }
            let ghost s = self.data@;
            self.data.set(m, a);
            self.data.set(i, b);
            proof {
                lemma_swap_multiset(s, m as int, i as int);
                assert(self.data@ == s.update(m as int, s[i as int]).update(i as int, s[m as int]));
                assert(parent(m as int) == i);
                assert forall|k: int| 0 < k < n && parent(k) != m implies pair_le(
                    self.data@[parent(k)],
                    #[trigger] self.data@[k],
                ) by {
                    if parent(k) == i {
                        assert(k == l || k == l + 1);
                    } else if k == i {
                        assert(pair_le(s[parent(i as int)], s[m as int]));
                    }
                }
                assert forall|c: int| 0 < c < n && parent(c) == m implies pair_le(
                    self.data@[parent(m as int)],
                    #[trigger] self.data@[c],
                ) by {
                    assert(pair_le(s[m as int], s[c]));
                }
            }
            i = m;
        }
        Some(top)
    }
}

} // verus!
