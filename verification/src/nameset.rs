//! A set of byte strings, kept in ascending order.
use vstd::prelude::*;

use crate::bytes;

verus! {

/// A set of byte strings: ascending, nothing twice.
#[derive(Debug, PartialEq, Eq)]
pub struct NameSet {
    pub names: Vec<Vec<u8>>,
}

/// Whether every name comes before the next.
pub open spec fn in_order(names: Seq<Vec<u8>>) -> bool {
    forall|i: int, j: int|
        0 <= i < j < names.len() ==> bytes::precedes((#[trigger] names[i])@, (#[trigger] names[j])@)
}

impl View for NameSet {
    type V = Set<Seq<u8>>;

    open spec fn view(&self) -> Set<Seq<u8>> {
        Set::new(|n: Seq<u8>| self.holds(n))
    }
}

impl NameSet {
    /// The names stand in order and none occurs twice.
    pub open spec fn wf(self) -> bool {
        in_order(self.names@)
    }

    /// Whether a name is in the set.
    pub open spec fn holds(self, name: Seq<u8>) -> bool {
        exists|i: int| 0 <= i < self.names@.len() && (#[trigger] self.names@[i])@ == name
    }

    pub fn new() -> (r: NameSet)
        ensures
            r.wf(),
            forall|n: Seq<u8>| !#[trigger] r.holds(n),
    {
        NameSet { names: Vec::new() }
    }

    /// Where a name stands, or where it belongs.
    fn find(&self, name: &[u8]) -> (r: (bool, usize))
        requires
            self.wf(),
        ensures
            r.1 <= self.names@.len(),
            r.0 ==> r.1 < self.names@.len() && self.names@[r.1 as int]@ == name@,
            !r.0 ==> forall|a: int|
                0 <= a < r.1 ==> bytes::precedes((#[trigger] self.names@[a])@, name@),
            !r.0 ==> forall|a: int|
                r.1 <= a < self.names@.len() ==> bytes::precedes(
                    name@,
                    (#[trigger] self.names@[a])@,
                ),
    {
        let mut low: usize = 0;
        let mut high: usize = self.names.len();
        while low < high
            invariant
                low <= high <= self.names@.len(),
                in_order(self.names@),
                forall|a: int|
                    0 <= a < low ==> bytes::precedes((#[trigger] self.names@[a])@, name@),
                forall|a: int|
                    high <= a < self.names@.len() ==> bytes::precedes(
                        name@,
                        (#[trigger] self.names@[a])@,
                    ),
            decreases high - low,
        {
            let mid = low + (high - low) / 2;
            let ghost middle = self.names@[mid as int]@;
            if bytes::before(&self.names[mid], name) {
                proof {
                    assert forall|a: int| 0 <= a <= mid implies bytes::precedes(
                        (#[trigger] self.names@[a])@,
                        name@,
                    ) by {
                        if a < mid {
                            bytes::lemma_order_carries(self.names@[a]@, middle, name@);
                        }
                    }
                }
                low = mid + 1;
            } else if bytes::before(name, &self.names[mid]) {
                proof {
                    assert forall|a: int| mid <= a < self.names@.len() implies bytes::precedes(
                        name@,
                        (#[trigger] self.names@[a])@,
                    ) by {
                        if mid < a {
                            bytes::lemma_order_carries(name@, middle, self.names@[a]@);
                        }
                    }
                }
                high = mid;
            } else {
                proof {
                    bytes::lemma_order(middle, name@);
                }
                return (true, mid);
            }
        }
        (false, low)
    }

    /// Whether a name is in the set.
    pub fn has(&self, name: &[u8]) -> (r: bool)
        requires
            self.wf(),
        ensures
            r == self.holds(name@),
    {
        let (found, at) = self.find(name);
        proof {
            if !found && self.holds(name@) {
                let i = choose|i: int|
                    0 <= i < self.names@.len() && (#[trigger] self.names@[i])@ == name@;
                bytes::lemma_order(name@, name@);
                assert(i < at || i >= at);
            }
        }
        found
    }

    /// Adds a name.
    pub fn insert(&mut self, name: &[u8])
        requires
            old(self).wf(),
        ensures
            final(self).wf(),
            forall|n: Seq<u8>| #[trigger]
                final(self).holds(n) <==> old(self).holds(n) || n == name@,
    {
        let ghost before = self.names@;
        let (found, at) = self.find(name);
        if found {
            return ;
        }
        let copy = bytes::copy(name);
        let ghost added = copy;
        self.names.insert(at, copy);
        proof {
            let after = self.names@;
            assert(after =~= before.insert(at as int, added));
            assert forall|a: int, b: int| 0 <= a < b < after.len() implies bytes::precedes(
                (#[trigger] after[a])@,
                (#[trigger] after[b])@,
            ) by {
                if a == at {
                    assert(after[b] == before[b - 1]);
                } else if b == at {
                    assert(after[a] == before[a]);
                } else if b < at {
                    assert(after[a] == before[a] && after[b] == before[b]);
                } else if a < at {
                    assert(after[a] == before[a] && after[b] == before[b - 1]);
                } else {
                    assert(after[a] == before[a - 1] && after[b] == before[b - 1]);
                }
            }
            assert forall|n: Seq<u8>| #[trigger] self.holds(n) <==> old(self).holds(n) || n
                == name@ by {
                if old(self).holds(n) {
                    let i = choose|i: int|
                        0 <= i < before.len() && (#[trigger] before[i])@ == n;
                    if i < at {
                        assert(after[i]@ == n);
                    } else {
                        assert(after[i + 1]@ == n);
                    }
                }
                if n == name@ {
                    assert(after[at as int]@ == n);
                }
                if self.holds(n) {
                    let i = choose|i: int| 0 <= i < after.len() && (#[trigger] after[i])@ == n;
                    if i < at {
                        assert(before[i]@ == n);
                    } else if i > at {
                        assert(before[i - 1]@ == n);
                    }
                }
            }
        }
    }
}

} // verus!
