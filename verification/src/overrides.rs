//! Costs of node types that an agent sets for itself.

use vstd::prelude::*;
use crate::island::NodeType;

verus! {

/// Costs that replace those of the archipelago for some node types, each
/// positive. A node type occurs at most once.
pub struct CostOverrides {
    pub(crate) entries: Vec<(NodeType, u32)>,
}

impl CostOverrides {
    /// The node types with a cost of their own, in the order in which they
    /// were first given one, each with its cost.
    pub open(crate) spec fn view(&self) -> Seq<(NodeType, u32)> {
        self.entries@
    }

    /// Whether `node_type` has a cost of its own.
    pub open(crate) spec fn has(&self, node_type: NodeType) -> bool {
        exists|k: int| 0 <= k < self.entries.len() && (#[trigger] self.entries[k]).0 == node_type
    }

    /// The place of `node_type`, which must have a cost of its own, among
    /// the node types that have one.
    pub open(crate) spec fn place(&self, node_type: NodeType) -> int {
        choose|k: int| 0 <= k < self.entries.len() && (#[trigger] self.entries[k]).0 == node_type
    }

    /// The cost of `node_type`, which must have one of its own.
    pub open(crate) spec fn cost(&self, node_type: NodeType) -> u32 {
        self.entries[self.place(node_type)].1
    }

    /// Every cost is positive, and no node type occurs twice.
    pub open(crate) spec fn wf(&self) -> bool {
        &&& forall|k: int| 0 <= k < self.entries.len() ==> (#[trigger] self.entries[k]).1 > 0
        &&& forall|j: int, k: int|
            0 <= j < k < self.entries.len() ==> (#[trigger] self.entries[j]).0 != (
            #[trigger] self.entries[k]).0
    }

    #[verifier::type_invariant]
    pub(crate) open spec fn inv(&self) -> bool {
        self.wf()
    }

    /// No node type has a cost of its own.
    pub fn new() -> (r: CostOverrides)
        ensures
            r.wf(),
            r@.len() == 0,
            forall|t: NodeType| !r.has(t),
    {
        CostOverrides { entries: Vec::new() }
    }

    fn find(&self, node_type: NodeType) -> (r: Option<usize>)
        ensures
            self.wf(),
            match r {
                Some(k) => k < self.entries.len() && self.entries[k as int].0 == node_type
                    && self.has(node_type) && self.cost(node_type) == self.entries[k as int].1
                    && self.place(node_type) == k,
                None => !self.has(node_type),
            },
    {
        proof {
            use_type_invariant(self);
        }
        let mut k: usize = 0;
        while k < self.entries.len()
            invariant
                self.wf(),
                k <= self.entries.len(),
                forall|j: int| 0 <= j < k ==> (#[trigger] self.entries[j]).0 != node_type,
            decreases self.entries.len() - k,
        {
            if self.entries[k].0 == node_type {
                proof {
                    let c = choose|c: int|
                        0 <= c < self.entries.len() && (#[trigger] self.entries[c]).0 == node_type;
                    if c < k {
                        assert(self.entries[c].0 != self.entries[k as int].0);
                    } else if k < c {
                        assert(self.entries[k as int].0 != self.entries[c].0);
                    }
                }
                return Some(k);
            }
            k = k + 1;
        }
        None
    }

    /// The entries but the one at place `k`; all of them where there is no
    /// such place.
    fn copy_without(&self, k: usize) -> (r: Vec<(NodeType, u32)>)
        ensures
            k < self.entries.len() ==> r@ == self.entries@.remove(k as int),
            k >= self.entries.len() ==> r@ == self.entries@,
    {
        let mut entries: Vec<(NodeType, u32)> = Vec::new();
        let mut i: usize = 0;
        while i < self.entries.len()
            invariant
                i <= self.entries.len(),
                i <= k ==> entries@ == self.entries@.take(i as int),
                i > k ==> entries@ == self.entries@.remove(k as int).take(i - 1),
            decreases self.entries.len() - i,
        {
            if i != k {
                entries.push(self.entries[i]);
            }
            proof {
                if i < k {
                    assert(entries@ =~= self.entries@.take(i as int + 1));
                } else if i == k {
                    assert(entries@ =~= self.entries@.remove(k as int).take(i as int));
                } else {
                    assert(entries@ =~= self.entries@.remove(k as int).take(i as int));
                }
            }
            i = i + 1;
        }
        proof {
            if k < self.entries.len() {
                assert(entries@ =~= self.entries@.remove(k as int));
            } else {
                assert(entries@ =~= self.entries@);
            }
        }
        entries
    }

    /// The cost that `node_type` has of its own, if it has one.
    pub fn get(&self, node_type: NodeType) -> (r: Option<u32>)
        ensures
            self.wf(),
            r is Some == self.has(node_type),
            r is Some ==> r->0 == self.cost(node_type) && r->0 > 0,
    {
        match self.find(node_type) {
            Some(k) => Some(self.entries[k].1),
            None => None,
        }
    }

    /// Gives `node_type` the cost `cost` of its own, unless `cost` is not
    /// positive. Returns whether the cost was set.
    pub fn set(&mut self, node_type: NodeType, cost: u32) -> (r: bool)
        ensures
            old(self).wf(),
            final(self).wf(),
            r == (cost > 0),
            !r ==> *final(self) == *old(self),
            r ==> final(self).has(node_type) && final(self).cost(node_type) == cost,
            r && !old(self).has(node_type) ==> final(self)@ == old(self)@.push((node_type, cost)),
            r && old(self).has(node_type) ==> final(self)@ == old(self)@.update(
                old(self).place(node_type),
                (node_type, cost),
            ),
            r ==> forall|other: NodeType|
                other != node_type ==> final(self).has(other) == old(self).has(other) && (
                old(self).has(other) ==> final(self).cost(other) == old(self).cost(other)),
    {
        proof {
            use_type_invariant(&*self);
        }
        if cost == 0 {
            return false;
        }
        match self.find(node_type) {
            Some(k) => {
                let mut entries: Vec<(NodeType, u32)> = Vec::new();
                let mut i: usize = 0;
                while i < self.entries.len()
                    invariant
                        i <= self.entries.len(),
                        k < self.entries.len(),
                        entries@ == self.entries@.update(k as int, (node_type, cost)).take(i as int),
                    decreases self.entries.len() - i,
                {
                    if i == k {
                        entries.push((node_type, cost));
                    } else {
                        entries.push(self.entries[i]);
                    }
                    proof {
                        assert(entries@ =~= self.entries@.update(k as int, (node_type, cost)).take(
                            i as int + 1,
                        ));
                    }
                    i = i + 1;
                }
                proof {
                    assert(entries@ =~= self.entries@.update(k as int, (node_type, cost)));
                    let after = entries@;
                    let before = self.entries@;
                    assert forall|a: int, b: int| 0 <= a < b < after.len() implies (
                    #[trigger] after[a]).0 != (#[trigger] after[b]).0 by {
                        assert(before[a].0 != before[b].0);
                    }
                    assert forall|a: int| 0 <= a < after.len() implies (#[trigger] after[a]).1
                        > 0 by {
                        if a != k {
                            assert(before[a].1 > 0);
                        }
                    }
                }
                self.entries = entries;
                proof {
                    let before = old(self).entries@;
                    let after = self.entries@;
                    assert(after[k as int].0 == node_type);
                    self.lemma_cost_at(k as int);
                    assert forall|other: NodeType| other != node_type implies self.has(other)
                        == old(self).has(other) && (old(self).has(other) ==> self.cost(other)
                        == old(self).cost(other)) by {
                        if old(self).has(other) {
                            let j = choose|j: int|
                                0 <= j < before.len() && (#[trigger] before[j]).0 == other;
                            assert(after[j].0 == other);
                            self.lemma_cost_at(j);
                            old(self).lemma_cost_at(j);
                        }
                        if self.has(other) {
                            let j = choose|j: int|
                                0 <= j < after.len() && (#[trigger] after[j]).0 == other;
                            assert(before[j].0 == other);
                        }
                    }
                }
            },
            None => {
                let mut entries = self.copy_without(self.entries.len());
                entries.push((node_type, cost));
                self.entries = entries;
                proof {
                    let before = old(self).entries@;
                    let after = self.entries@;
                    let k = before.len() as int;
                    assert(after[k].0 == node_type);
                    assert forall|i: int, j: int| 0 <= i < j < after.len() implies (
                    #[trigger] after[i]).0 != (#[trigger] after[j]).0 by {
                        if j == k {
                            assert(before[i].0 != node_type);
                        }
                    }
                    self.lemma_cost_at(k);
                    assert forall|other: NodeType| other != node_type implies self.has(other)
                        == old(self).has(other) && (old(self).has(other) ==> self.cost(other)
                        == old(self).cost(other)) by {
                        if old(self).has(other) {
                            let j = choose|j: int|
                                0 <= j < before.len() && (#[trigger] before[j]).0 == other;
                            assert(after[j].0 == other);
                            self.lemma_cost_at(j);
                            old(self).lemma_cost_at(j);
                        }
                        if self.has(other) {
                            let j = choose|j: int|
                                0 <= j < after.len() && (#[trigger] after[j]).0 == other;
                            assert(before[j].0 == other);
                        }
                    }
                }
            },
        }
        true
    }

    /// Takes the cost that `node_type` has of its own away. Returns whether
    /// it had one.
    pub fn remove(&mut self, node_type: NodeType) -> (r: bool)
        ensures
            old(self).wf(),
            final(self).wf(),
            r == old(self).has(node_type),
            !final(self).has(node_type),
            r ==> final(self)@ == old(self)@.remove(old(self).place(node_type)),
            !r ==> final(self)@ == old(self)@,
            forall|other: NodeType|
                other != node_type ==> final(self).has(other) == old(self).has(other) && (
                old(self).has(other) ==> final(self).cost(other) == old(self).cost(other)),
    {
        match self.find(node_type) {
            Some(k) => {
                self.entries = self.copy_without(k);
                proof {
                    let before = old(self).entries@;
                    let after = self.entries@;
                    assert forall|i: int, j: int| 0 <= i < j < after.len() implies (
                    #[trigger] after[i]).0 != (#[trigger] after[j]).0 by {
                        let i0 = if i < k { i } else { i + 1 };
                        let j0 = if j < k { j } else { j + 1 };
                        assert(before[i0].0 != before[j0].0);
                    }
                    assert forall|j: int| 0 <= j < after.len() implies (#[trigger] after[j]).1
                        > 0 by {
                        let j0 = if j < k { j } else { j + 1 };
                        assert(before[j0].1 > 0);
                    }
                    if self.has(node_type) {
                        let j = choose|j: int|
                            0 <= j < after.len() && (#[trigger] after[j]).0 == node_type;
                        let j0 = if j < k { j } else { j + 1 };
                        if j0 < k {
                            assert(before[j0].0 != before[k as int].0);
                        } else {
                            assert(before[k as int].0 != before[j0].0);
                        }
                    }
                    assert forall|other: NodeType| other != node_type implies self.has(other)
                        == old(self).has(other) && (old(self).has(other) ==> self.cost(other)
                        == old(self).cost(other)) by {
                        if old(self).has(other) {
                            let j0 = choose|j: int|
                                0 <= j < before.len() && (#[trigger] before[j]).0 == other;
                            let j = if j0 < k { j0 } else { j0 - 1 };
                            assert(after[j] == before[j0]);
                            self.lemma_cost_at(j);
                            old(self).lemma_cost_at(j0);
                        }
                        if self.has(other) {
                            let j = choose|j: int|
                                0 <= j < after.len() && (#[trigger] after[j]).0 == other;
                            let j0 = if j < k { j } else { j + 1 };
                            assert(before[j0].0 == other);
                        }
                    }
                }
                true
            },
            None => false,
        }
    }

    /// The node types with a cost of their own, each with its cost.
    pub fn get_all(&self) -> (r: &Vec<(NodeType, u32)>)
        ensures
            r@ == self@,
            self.wf(),
    {
        proof {
            use_type_invariant(self);
        }
        &self.entries
    }

    /// The cost of the node type at place `k` is the cost listed there.
    pub(crate) proof fn lemma_cost_at(&self, k: int)
        requires
            self.wf(),
            0 <= k < self.entries.len(),
        ensures
            self.has(self.entries[k].0),
            self.cost(self.entries[k].0) == self.entries[k].1,
    {
        let t = self.entries[k].0;
        let c = choose|c: int| 0 <= c < self.entries.len() && (#[trigger] self.entries[c]).0 == t;
        if c < k {
            assert(self.entries[c].0 != self.entries[k].0);
        } else if k < c {
            assert(self.entries[k].0 != self.entries[c].0);
        }
    }
}

} // verus!
