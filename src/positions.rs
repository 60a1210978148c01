//! The bidirectional map between logical qubits and physical slots.
use vstd::prelude::*;

verus! {

/// Logical qubit `l` sits in physical slot `logical_to_physical[l]`, and slot
/// `p` holds logical qubit `physical_to_logical[p]`.
pub struct QubitPositions {
    pub physical_to_logical: Vec<usize>,
    pub logical_to_physical: Vec<usize>,
}

impl QubitPositions {
    pub open spec fn len(&self) -> nat {
        self.logical_to_physical@.len()
    }

    pub open spec fn slot(&self, l: int) -> int {
        self.logical_to_physical@[l] as int
    }

    pub open spec fn holder(&self, p: int) -> int {
        self.physical_to_logical@[p] as int
    }

    /// The two arrays are mutual inverses on `0..len`.
    pub open spec fn wf(&self) -> bool {
        &&& self.physical_to_logical@.len() == self.logical_to_physical@.len()
        &&& forall|l: int|
            0 <= l < self.len() ==> 0 <= #[trigger] self.slot(l) < self.len() && self.holder(
                self.slot(l),
            ) == l
        &&& forall|p: int|
            0 <= p < self.len() ==> 0 <= #[trigger] self.holder(p) < self.len() && self.slot(
                self.holder(p),
            ) == p
    }

    /// Every qubit in the slot of its own index.
    pub fn new(n: usize) -> (r: QubitPositions)
        ensures
            r.wf(),
            r.len() == n,
            forall|l: int| 0 <= l < n ==> #[trigger] r.slot(l) == l,
    {
        let mut mapping: Vec<usize> = Vec::new();
        let mut i: usize = 0;
        while i < n
            invariant
                i <= n,
                mapping@.len() == i,
                forall|j: int| 0 <= j < i ==> mapping@[j] == j,
            decreases n - i,
        {
            mapping.push(i);
            i += 1;
        }
        QubitPositions { physical_to_logical: mapping.clone(), logical_to_physical: mapping }
    }

    /// Exchanges the logical qubits held by slots `a` and `b`.
    pub fn swap_slots(&mut self, a: usize, b: usize)
        requires
            old(self).wf(),
            a < old(self).len(),
            b < old(self).len(),
        ensures
            final(self).wf(),
            final(self).len() == old(self).len(),
            final(self).holder(a as int) == old(self).holder(b as int),
            final(self).holder(b as int) == old(self).holder(a as int),
            forall|p: int|
                0 <= p < old(self).len() && p != a && p != b ==> #[trigger] final(self).holder(p)
                    == old(self).holder(p),
            final(self).slot(old(self).holder(a as int)) == b,
            final(self).slot(old(self).holder(b as int)) == a,
            forall|l: int|
                0 <= l < old(self).len() && l != old(self).holder(a as int) && l != old(
                    self,
                ).holder(b as int) ==> #[trigger] final(self).slot(l) == old(self).slot(l),
    {
        let la = self.physical_to_logical[a];
        let lb = self.physical_to_logical[b];
        proof {
            assert(0 <= self.holder(a as int) < self.len());
            assert(0 <= self.holder(b as int) < self.len());
        }
        self.logical_to_physical.set(la, b);
        self.logical_to_physical.set(lb, a);
        self.physical_to_logical.set(b, la);
        self.physical_to_logical.set(a, lb);
        proof {
            assert forall|l: int| 0 <= l < self.len() implies 0 <= #[trigger] self.slot(l)
                < self.len() && self.holder(self.slot(l)) == l by {
                if l != la && l != lb {
                    assert(old(self).holder(old(self).slot(l)) == l);
                }
            }
            assert forall|p: int| 0 <= p < self.len() implies 0 <= #[trigger] self.holder(p)
                < self.len() && self.slot(self.holder(p)) == p by {
                if p != a && p != b {
                    assert(old(self).slot(old(self).holder(p)) == p);
                }
            }
        }
    }
}

/// Under a well-formed map every slot holds exactly one logical qubit, at all
/// times: there is a qubit in it, and two qubits in it are the same.
pub proof fn lemma_slot_held_once(pos: QubitPositions, p: int)
    requires
        pos.wf(),
        0 <= p < pos.len(),
    ensures
        exists|l: int| 0 <= l < pos.len() && #[trigger] pos.slot(l) == p,
        forall|l1: int, l2: int|
            0 <= l1 < pos.len() && 0 <= l2 < pos.len() && #[trigger] pos.slot(l1) == p
                && #[trigger] pos.slot(l2) == p ==> l1 == l2,
{
    let l = pos.holder(p);
    assert(pos.slot(l) == p);
    assert forall|l1: int, l2: int|
        0 <= l1 < pos.len() && 0 <= l2 < pos.len() && #[trigger] pos.slot(l1) == p
            && #[trigger] pos.slot(l2) == p implies l1 == l2 by {
        assert(pos.holder(pos.slot(l1)) == l1);
        assert(pos.holder(pos.slot(l2)) == l2);
    }
}

} // verus!
