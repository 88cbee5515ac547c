//! The ghost shape of a tree and its pre-order node sequence.

use vstd::prelude::*;

verus! {

/// The mathematical shape of a tree: a node value together with the
/// shapes of its direct subtrees, in enumeration order.  Values of this
/// type exist only in specifications.
pub struct Tree<T> {
    /// The value stored at this node.
    pub node: T,
    /// The shapes of the direct subtrees, left to right.
    pub kids: Seq<Tree<T>>,
}

/// The node values of `t` in pre-order: the node itself, then the nodes
/// of each subtree in turn.  This sequence is the visitation order that a
/// depth-first walk owes its caller.
pub open spec fn flat<T>(t: Tree<T>) -> Seq<T>
    decreases t, 0int,
{
    seq![t.node] + flat_from(t.kids, 0)
}

/// The node values of the subtrees `ts[i..]`, each in pre-order.
pub open spec fn flat_from<T>(ts: Seq<Tree<T>>, i: int) -> Seq<T>
    decreases ts, ts.len() - i,
{
    if 0 <= i < ts.len() {
        flat(ts[i]) + flat_from(ts, i + 1)
    } else {
        Seq::empty()
    }
}

/// `c` is one of the direct subtrees of `p`.
pub open spec fn is_child_of<T>(c: Tree<T>, p: Tree<T>) -> bool {
    exists|j: int| 0 <= j < p.kids.len() && c == #[trigger] p.kids[j]
}

/// A tree's pre-order sequence starts with its own node.
pub proof fn lemma_flat_first<T>(t: Tree<T>)
    ensures
        flat(t).len() >= 1,
        flat(t)[0] == t.node,
{
}

} // verus!
