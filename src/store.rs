//! The side table holding each node's latest construction result.

use vstd::prelude::*;
use crate::dom::{DomNode, PseudoElement};
use crate::result::{ConstructionResult, is_empty_result, merged_descendants, result_wf};

verus! {

/// Which of a node's three slots generated content of kind `p` uses.
pub open spec fn slot_offset(p: PseudoElement) -> int {
    match p {
        PseudoElement::Normal => 0,
        PseudoElement::Before | PseudoElement::BeforeBlock => 1,
        _ => 2,
    }
}

/// Where in the store the result of node `key` (or of its generated content
/// `p`) stands.
pub open spec fn slot_index(key: usize, p: PseudoElement) -> int {
    3 * key + slot_offset(p)
}

/// Where in the store the result of traversal node `n` stands.
pub open spec fn node_slot(n: DomNode) -> int {
    slot_index(n.key, n.pseudo)
}

/// The descendants bubbled up by the results stored for `node`'s children.
pub open spec fn kids_descendants(slots: Seq<ConstructionResult>, node: DomNode) -> Seq<usize> {
    merged_descendants(kids_results(slots, node.children@))
}

/// The results stored for the children of a node.
pub open spec fn kids_results(slots: Seq<ConstructionResult>, kids: Seq<DomNode>) -> Seq<ConstructionResult> {
    kids.map_values(|c: DomNode| slots[node_slot(c)])
}

/// Each node's latest construction result, three slots per node: the node
/// itself, then the content generated before and after it.
pub struct ResultStore {
    pub slots: Vec<ConstructionResult>,
}

impl ResultStore {
    pub open spec fn wf(&self) -> bool {
        forall|i: int| 0 <= i < self.slots@.len() ==> result_wf(#[trigger] self.slots@[i])
    }

    /// Whether node `key` has its slots.
    pub open spec fn has(&self, key: usize) -> bool {
        3 * key + 3 <= self.slots@.len()
    }

    /// A store for nodes `0..n`, every slot empty.
    pub fn new(n: usize) -> (r: ResultStore)
        requires
            n <= usize::MAX / 3,
        ensures
            r.slots@.len() == 3 * n,
            forall|i: int| 0 <= i < 3 * n ==> is_empty_result(#[trigger] r.slots@[i]),
            r.wf(),
    {
        let mut slots: Vec<ConstructionResult> = Vec::new();
        let total: usize = 3 * n;
        let mut i: usize = 0;
        while i < total
            invariant
                total == 3 * n,
                i <= 3 * n,
                slots@.len() == i,
                forall|j: int| 0 <= j < i ==> is_empty_result(#[trigger] slots@[j]),
            decreases 3 * n - i,
        {
            slots.push(ConstructionResult::NoConstructionResult);
            i = i + 1;
        }
        ResultStore { slots }
    }

    fn index(key: usize, p: PseudoElement) -> (r: usize)
        requires
            3 * key + 3 <= usize::MAX,
        ensures
            r == slot_index(key, p),
    {
        let offset: usize = match p {
            PseudoElement::Normal => 0,
            PseudoElement::Before | PseudoElement::BeforeBlock => 1,
            _ => 2,
        };
        3 * key + offset
    }

    /// Takes out the result in a slot, leaving the slot empty.
    pub fn take(&mut self, key: usize, p: PseudoElement) -> (r: ConstructionResult)
        requires
            old(self).has(key),
            old(self).wf(),
        ensures
            r == old(self).slots@[slot_index(key, p)],
            final(self).slots@ == old(self).slots@.update(
                slot_index(key, p),
                ConstructionResult::NoConstructionResult,
            ),
            result_wf(r),
            final(self).wf(),
    {
        proof {
            assert(self.slots.len() == self.slots@.len());
        }
        let i = Self::index(key, p);
        let mut r = ConstructionResult::NoConstructionResult;
        std::mem::swap(&mut self.slots[i], &mut r);
        r
    }

    /// Stores a result in a slot, dropping what was there.
    pub fn set(&mut self, key: usize, p: PseudoElement, r: ConstructionResult)
        requires
            old(self).has(key),
            old(self).wf(),
            result_wf(r),
        ensures
            final(self).slots@ == old(self).slots@.update(slot_index(key, p), r),
            final(self).wf(),
    {
        proof {
            assert(self.slots.len() == self.slots@.len());
        }
        let i = Self::index(key, p);
        self.slots.set(i, r);
    }
}

/// The children of `node` have slots in a store of `len` slots, each its own.
pub open spec fn kids_fit(node: DomNode, len: nat) -> bool {
    &&& forall|i: int| 0 <= i < node.children@.len() ==> 3 * (#[trigger] node.children@[i]).key + 3 <= len
    &&& forall|i: int, j: int| 0 <= i < node.children@.len() && 0 <= j < node.children@.len() && i != j
        ==> node_slot(#[trigger] node.children@[i]) != node_slot(#[trigger] node.children@[j])
}

/// Slot `j` belongs to one of `node`'s children.
pub open spec fn is_kid_slot(node: DomNode, j: int) -> bool {
    exists|i: int| 0 <= i < node.children@.len() && node_slot(#[trigger] node.children@[i]) == j
}

/// Slot `j` belongs to `node` or to a node below it.
pub open spec fn in_subtree(node: DomNode, j: int) -> bool
    decreases node,
{
    node_slot(node) == j || exists|i: int| 0 <= i < node.children@.len() && in_subtree(#[trigger] node.children@[i], j)
}

/// Every node of the tree has its slots, and no slot serves two nodes of
/// the tree: the subtrees of two children of a node share none, and none
/// holds the node's own.
pub open spec fn tree_fits(node: DomNode, len: nat) -> bool
    decreases node,
{
    &&& 3 * node.key + 3 <= len
    &&& kids_fit(node, len)
    &&& !is_kid_slot(node, node_slot(node))
    &&& forall|i: int, k: int, j: int| 0 <= i < node.children@.len() && 0 <= k < node.children@.len() && i != k
        ==> !(#[trigger] in_subtree(node.children@[i], j) && #[trigger] in_subtree(node.children@[k], j))
    &&& forall|i: int| 0 <= i < node.children@.len() ==> !in_subtree(#[trigger] node.children@[i], node_slot(node))
    &&& forall|i: int| 0 <= i < node.children@.len() ==> tree_fits(#[trigger] node.children@[i], len)
}

} // verus!
