//! Attribute passes over a finished box tree: the order in which a pass that
//! hands values down visits the boxes, and the order of one that gathers
//! values up.

use vstd::prelude::*;
use crate::flow::Flow;

verus! {

/// Whether `num` is even.
#[allow(non_snake_case)]
pub fn isEven(num: i64) -> (r: bool)
    ensures
        r == (num as int % 2 == 0),
{
    num % 2 == 0
}

/// The boxes of a tree, by node key, each before its children.
pub open spec fn preorder(f: Flow) -> Seq<usize>
    decreases f, 1nat,
{
    seq![f.node] + preorder_children(f, f.children@.len() as int)
}

/// The boxes below the first `n` children of `f`, each before its children.
pub open spec fn preorder_children(f: Flow, n: int) -> Seq<usize>
    decreases f, 0nat, n,
{
    if n <= 0 || n > f.children@.len() {
        Seq::empty()
    } else {
        preorder_children(f, n - 1) + preorder(f.children@[n - 1])
    }
}

/// The boxes of a tree, by node key, each after its children.
pub open spec fn postorder(f: Flow) -> Seq<usize>
    decreases f, 1nat,
{
    postorder_children(f, f.children@.len() as int).push(f.node)
}

/// The boxes below the first `n` children of `f`, each after its children.
pub open spec fn postorder_children(f: Flow, n: int) -> Seq<usize>
    decreases f, 0nat, n,
{
    if n <= 0 || n > f.children@.len() {
        Seq::empty()
    } else {
        postorder_children(f, n - 1) + postorder(f.children@[n - 1])
    }
}

/// The order in which an inherited-attribute pass visits the boxes under
/// `node`: each box before its children, children in order.
pub fn inherit(node: &Flow) -> (r: Vec<usize>)
    ensures
        r@ == preorder(*node),
    decreases node,
{
    let mut out: Vec<usize> = Vec::new();
    out.push(node.node);
    let mut i: usize = 0;
    while i < node.children.len()
        invariant
            i <= node.children@.len(),
            out@ == seq![node.node] + preorder_children(*node, i as int),
        decreases node.children@.len() - i,
    {
        let mut below = inherit(&node.children[i]);
        out.append(&mut below);
        assert(out@ =~= seq![node.node] + preorder_children(*node, i + 1));
        i = i + 1;
    }
    out
}

/// The order in which a synthesized-attribute pass visits the boxes under
/// `node`: each box after its children, children in order.
pub fn synthesize(node: &Flow) -> (r: Vec<usize>)
    ensures
        r@ == postorder(*node),
    decreases node,
{
    let mut out: Vec<usize> = Vec::new();
    let mut i: usize = 0;
    while i < node.children.len()
        invariant
            i <= node.children@.len(),
            out@ == postorder_children(*node, i as int),
        decreases node.children@.len() - i,
    {
        let mut below = synthesize(&node.children[i]);
        out.append(&mut below);
        assert(out@ =~= postorder_children(*node, i + 1));
        i = i + 1;
    }
    out.push(node.node);
    out
}

} // verus!
