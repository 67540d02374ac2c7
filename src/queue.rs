use vstd::prelude::*;

verus! {

/// `a` comes no later than `b`: lower cost first, ties to the smaller node.
pub open spec fn entry_le(a: (u64, usize), b: (u64, usize)) -> bool {
    a.0 < b.0 || (a.0 == b.0 && a.1 <= b.1)
}

/// A priority queue of `(cost, node)` entries that hands out the least entry first.
/// Entries are kept in descending order, so the least one is last.
pub struct MinQueue {
    pub items: Vec<(u64, usize)>,
}

impl MinQueue {
    pub open spec fn view(&self) -> Seq<(u64, usize)> {
        self.items@
    }

    pub open spec fn wf(&self) -> bool {
        forall|i: int, j: int|
            0 <= i < j < self.items@.len() ==> entry_le(self.items@[j], self.items@[i])
    }

    pub fn new() -> (q: MinQueue)
        ensures
            q.wf(),
            q@.len() == 0,
    {
        MinQueue { items: Vec::new() }
    }

    pub fn len(&self) -> (r: usize)
        ensures
            r == self@.len(),
    {
        self.items.len()
    }

    /// Adds `entry`, keeping the others.
    pub fn push(&mut self, entry: (u64, usize))
        requires
            old(self).wf(),
        ensures
            final(self).wf(),
            final(self)@.len() == old(self)@.len() + 1,
            final(self)@.to_multiset() == old(self)@.to_multiset().insert(entry),
            forall|x: (u64, usize)|
                #[trigger] final(self)@.contains(x) <==> old(self)@.contains(x) || x == entry,
    {
        // first position whose entry is not greater than `entry`
        let mut lo: usize = 0;
        let mut hi: usize = self.items.len();
        while lo < hi
            invariant
                0 <= lo <= hi <= self.items@.len(),
                self.wf(),
                forall|i: int| 0 <= i < lo ==> !entry_le(#[trigger] self.items@[i], entry),
                forall|i: int| hi <= i < self.items@.len() ==> entry_le(#[trigger] self.items@[i], entry),
            decreases hi - lo,
        {
            let mid = lo + (hi - lo) / 2;
            let m = self.items[mid];
            if m.0 < entry.0 || (m.0 == entry.0 && m.1 <= entry.1) {
                proof {
                    assert forall|i: int| mid <= i < self.items@.len() implies entry_le(
                        #[trigger] self.items@[i],
                        entry,
                    ) by {
                        if i > mid {
                            assert(entry_le(self.items@[i], self.items@[mid as int]));
                        }
                    }
                }
                hi = mid;
            } else {
                proof {
                    assert forall|i: int| 0 <= i <= mid implies !entry_le(
                        #[trigger] self.items@[i],
                        entry,
                    ) by {
                        if i < mid {
                            assert(entry_le(self.items@[mid as int], self.items@[i]));
                        }
                    }
                }
                lo = mid + 1;
            }
        }
        let ghost before = self.items@;
        self.items.insert(lo, entry);
        proof {
            before.insert_ensures(lo as int, entry);
            assert(self.items@ == before.insert(lo as int, entry));
            broadcast use vstd::seq_lib::group_to_multiset_ensures;
            broadcast use vstd::multiset::group_multiset_properties;
            assert(self.items@.remove(lo as int) =~= before);
            assert(self.items@[lo as int] == entry);
            assert(before.to_multiset() == self.items@.to_multiset().remove(entry));
            assert(self.items@.to_multiset().count(entry) > 0);
            assert(self.items@.to_multiset() =~= before.to_multiset().insert(entry));
            assert forall|x: (u64, usize)|
                #[trigger] self.items@.contains(x) <==> before.contains(x) || x == entry by {
                if self.items@.contains(x) {
                    let k = choose|k: int| 0 <= k < self.items@.len() && self.items@[k] == x;
                    if k < lo {
                        assert(before[k] == x);
                    } else if k > lo {
                        assert(before[k - 1] == x);
                    }
                }
                if before.contains(x) {
                    let k = choose|k: int| 0 <= k < before.len() && before[k] == x;
                    if k < lo {
                        assert(self.items@[k] == x);
                    } else {
                        assert(self.items@[k + 1] == x);
                    }
                }
                if x == entry {
                    assert(self.items@[lo as int] == x);
                }
            }
            assert forall|i: int, j: int|
                0 <= i < j < self.items@.len() implies entry_le(self.items@[j], self.items@[i]) by {
                if j < lo {
                    assert(entry_le(before[j], before[i]));
                } else if j == lo {
                    assert(!entry_le(before[i], entry));
                } else if i > lo {
                    assert(entry_le(before[j - 1], before[i - 1]));
                } else if i == lo {
                    assert(entry_le(before[j - 1], entry));
                } else {
                    assert(entry_le(before[j - 1], before[i]));
                }
            }
        }
    }

    /// Removes and returns the least entry, if any.
    pub fn pop(&mut self) -> (r: Option<(u64, usize)>)
        requires
            old(self).wf(),
        ensures
            final(self).wf(),
            old(self)@.len() == 0 ==> r is None && final(self)@.len() == 0,
            old(self)@.len() > 0 ==> r == Some(old(self)@.last()) && final(self)@ == old(
                self,
            )@.drop_last(),
            r matches Some(e) ==> forall|j: int|
                0 <= j < old(self)@.len() ==> entry_le(e, #[trigger] old(self)@[j]),
    {
        self.items.pop()
    }
}

} // verus!
