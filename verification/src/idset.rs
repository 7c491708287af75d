//! A set of numbers, kept in ascending order.
use vstd::prelude::*;

verus! {

/// A set of numbers: ascending, nothing twice.
#[derive(Debug, PartialEq, Eq)]
pub struct IdSet {
    pub ids: Vec<u32>,
}

/// Whether every number is above the one before it.
pub open spec fn ascending(ids: Seq<u32>) -> bool {
    forall|i: int, j: int| 0 <= i < j < ids.len() ==> ids[i] < ids[j]
}

impl IdSet {
    /// The numbers stand in order and nothing occurs twice.
    pub open spec fn wf(self) -> bool {
        ascending(self.ids@)
    }

    /// Whether a number is in the set.
    pub open spec fn holds(self, id: u32) -> bool {
        self.ids@.contains(id)
    }

    pub fn new() -> (r: IdSet)
        ensures
            r.wf(),
            forall|x: u32| !#[trigger] r.holds(x),
    {
        IdSet { ids: Vec::new() }
    }

    /// Adds a number.
    pub fn insert(&mut self, id: u32)
        requires
            old(self).wf(),
        ensures
            final(self).wf(),
            forall|x: u32| #[trigger] final(self).holds(x) <==> old(self).holds(x) || x == id,
    {
        let ghost before = self.ids@;
        let mut at: usize = 0;
        while at < self.ids.len() && self.ids[at] < id
            invariant
                at <= self.ids@.len(),
                self.ids@ == before,
                forall|k: int| 0 <= k < at ==> #[trigger] before[k] < id,
            decreases self.ids@.len() - at,
        {
            at += 1;
        }
        if at < self.ids.len() && self.ids[at] == id {
            assert(before[at as int] == id);
            return ;
        }
        self.ids.insert(at, id);
        let ghost after = self.ids@;
        proof {
            assert(after =~= before.insert(at as int, id));
            assert(after[at as int] == id);
            assert forall|k: int| 0 <= k < before.len() implies #[trigger] before[k] == after[if k
                < at {
                k
            } else {
                k + 1
            }] by {}
            assert forall|i: int, j: int| 0 <= i < j < after.len() implies after[i] < after[j] by {
                let a = if i < at {
                    i
                } else {
                    i - 1
                };
                let b = if j < at {
                    j
                } else {
                    j - 1
                };
                if i != at && j != at {
                    assert(before[a] < before[b]);
                } else if i == at {
                    assert(at < before.len());
                    assert(before[at as int] > id);
                    if b > at {
                        assert(before[at as int] < before[b]);
                    }
                }
            }
            assert forall|x: u32| #[trigger] self.holds(x) <==> before.contains(x) || x == id by {
                if before.contains(x) {
                    let k = choose|k: int| 0 <= k < before.len() && before[k] == x;
                    assert(after[if k < at {
                        k
                    } else {
                        k + 1
                    }] == x);
                }
                if after.contains(x) && x != id {
                    let k = choose|k: int| 0 <= k < after.len() && after[k] == x;
                    assert(before[if k < at {
                        k
                    } else {
                        k - 1
                    }] == x);
                }
            }
        }
    }

    /// The numbers of the set below a bound.
    pub fn below(&self, bound: u32) -> (r: IdSet)
        requires
            self.wf(),
        ensures
            r.wf(),
            forall|x: u32| #[trigger] r.holds(x) <==> self.holds(x) && x < bound,
    {
        let mut out: Vec<u32> = Vec::new();
        let mut i: usize = 0;
        while i < self.ids.len() && self.ids[i] < bound
            invariant
                i <= self.ids@.len(),
                self.wf(),
                out@ == self.ids@.take(i as int),
                forall|k: int| 0 <= k < i ==> #[trigger] self.ids@[k] < bound,
            decreases self.ids@.len() - i,
        {
            out.push(self.ids[i]);
            i += 1;
            assert(out@ =~= self.ids@.take(i as int));
        }
        let r = IdSet { ids: out };
        proof {
            assert forall|x: u32| #[trigger] r.holds(x) <==> self.holds(x) && x < bound by {
                if r.holds(x) {
                    let k = choose|k: int| 0 <= k < out@.len() && out@[k] == x;
                    assert(self.ids@[k] == x);
                }
                if self.holds(x) && x < bound {
                    let k = choose|k: int| 0 <= k < self.ids@.len() && self.ids@[k] == x;
                    assert(k < i) by {
                        if k >= i {
                            assert(self.ids@[i as int] <= self.ids@[k]);
                        }
                    }
                    assert(out@[k] == x);
                }
            }
        }
        r
    }
}

} // verus!
