//! Capability contracts for depth-first tree traversal: values that can
//! be accumulated along a path, walkers, and traversable nodes.

use vstd::prelude::*;

use crate::tree::{flat, Tree};
use crate::visiting::Visitor;
use crate::walk::{lemma_step, path_pairs, spec_step, WalkState};

verus! {

/// Values that can be accumulated *along a path* during tree traversal,
/// for instance the affine transformations in a character animation.
/// A neutral element seeds the walk at the root; how a node folds its
/// own contribution into the inherited value is the node's business
/// (see [`Visitable::accumulate`]).
pub trait Accumulable: Sized {
    /// The neutral element, as specification.
    spec fn spec_neutral() -> Self;

    /// How two values combine, as specification.
    spec fn spec_accumulate(&self, other: &Self) -> Self;

    /// Create the neutral element.
    fn neutral() -> (r: Self)
        ensures
            r == Self::spec_neutral(),
    ;

    /// Combine this value with another.
    fn accumulate(&self, other: &Self) -> (r: Self)
        ensures
            r == self.spec_accumulate(other),
    ;

    /// Copy this value.  The walker keeps one accumulator per path entry
    /// and hands callers copies, never shared aliases.
    fn duplicate(&self) -> (r: Self)
        ensures
            r == *self,
    ;
}

/// The optional per-step parameter as a specification value.
pub open spec fn read_parameter<Parameter>(zipped: Option<&Parameter>) -> Option<Parameter> {
    match zipped {
        Some(p) => Some(*p),
        None => None,
    }
}

/// The (node, accumulator) pairs of a borrowed path, as specification
/// values.
pub open spec fn read_stack<T, A>(stack: Seq<(&T, A)>) -> Seq<(T, A)> {
    stack.map_values(|e: (&T, A)| (*e.0, e.1))
}

/// Walkers over a tree of nodes of type `T`: each call to [`Visiting::next`]
/// advances the walk by one node and returns a copy of the current
/// root-to-node path, or `None` once the walk is exhausted.
pub trait Visiting<'a, T, Parameter, Accumulator> where
    T: 'a,
    Accumulator: Accumulable,
 {
    /// The walker's internal invariant; established at construction and
    /// preserved by every step.
    spec fn ready(&self) -> bool;

    /// Visits the next node of the tree.  A parameter can be provided to
    /// the computation of the accumulation for each node *along a path*.
    ///
    /// In animation, for instance, the pose of a character is computed
    /// by applying angles to each joint, so computing the local
    /// coordinate systems needs an additional per-step value.
    fn next(&mut self, parameter: Option<&Parameter>) -> (r: Option<Vec<(&'a T, Accumulator)>>)
        requires
            old(self).ready(),
        ensures
            final(self).ready(),
    ;
}

/// Nodes of a tree that can be visited depth first.
pub trait Visitable where Self: Sized {
    /// Accumulator type.  Along each *path* (the sequence of nodes from
    /// the root to the current node), values are accumulated: a node
    /// count as a trivial example, or the local coordinate systems of an
    /// animated character's bones.
    type Accumulator: Accumulable;

    /// Parameter type used to modify the accumulator along a path; in
    /// the animation example, a joint angle.
    type Parameter;

    /// Mutable data passed to every visit, granting access to the
    /// caller's scope.  The walker never inspects it.
    type Payload;

    /// The ghost shape of the tree rooted at this node: this node's
    /// value together with the shapes of its subtrees.
    spec fn shape(&self) -> Tree<Self>;

    /// The shape is coherent: its node value is this node, and each of
    /// its direct subtrees is the shape of that subtree's own node.
    /// Implementations prove this once; every traversal proof rests on it.
    proof fn lemma_shape(&self)
        ensures
            self.shape().node == *self,
            forall|i: int|
                0 <= i < self.shape().kids.len() ==> #[trigger] self.shape().kids[i]
                    == self.shape().kids[i].node.shape(),
    ;

    /// This node's contribution folded into the inherited accumulator,
    /// as specification.
    spec fn spec_accumulate(
        &self,
        acc: Self::Accumulator,
        zipped: Option<Self::Parameter>,
    ) -> Self::Accumulator;

    /// The node's direct children, in enumeration order.  Enumeration is
    /// deterministic: the result is exactly the nodes of the shape's
    /// direct subtrees.
    fn children(&self) -> (r: Vec<&Self>)
        ensures
            r@.len() == self.shape().kids.len(),
            forall|i: int| 0 <= i < r@.len() ==> *(#[trigger] r@[i]) == self.shape().kids[i].node,
    ;

    /// Compute the accumulation along a path when visiting this node.
    /// `acc` is the accumulator inherited from the parent (the neutral
    /// element for the root); `zipped` is the optional per-step
    /// parameter, absent when the caller's parameter sequence has run out.
    fn accumulate(
        &self,
        acc: &Self::Accumulator,
        zipped: Option<&Self::Parameter>,
    ) -> (r: Self::Accumulator)
        ensures
            r == self.spec_accumulate(*acc, read_parameter(zipped)),
    ;

    /// What one visit does to the payload, as specification: how the
    /// payload after the callback relates to the payload before it, given
    /// the path the callback saw.  Implementations choose the relation;
    /// the traversal driver's contract chains it along the walk, one link
    /// per visited node.
    spec fn on_visit_post(
        &self,
        stack: Seq<(Self, Self::Accumulator)>,
        before: Self::Payload,
        after: Self::Payload,
    ) -> bool;

    /// Arbitrary action when visiting a node along a path.  Receives the
    /// current path — the previous nodes with their accumulator values,
    /// this node last — and mutable data that allows interaction with
    /// the outside context.
    fn on_visit(&self, stack: &Vec<(&Self, Self::Accumulator)>, payload: &mut Self::Payload)
        ensures
            self.on_visit_post(read_stack(stack@), *old(payload), *final(payload)),
    ;
}

/// The parameter paired with the k-th advance of a driven walk: the k-th
/// entry of the supplied sequence while it lasts, absent afterwards.
pub open spec fn visit_param<Parameter>(zipped: Seq<Parameter>, k: int) -> Option<Parameter> {
    if 0 <= k < zipped.len() {
        Some(zipped[k])
    } else {
        None
    }
}

/// The walk state after the first `k` advances of a driven walk from
/// `s`, the k-th advance under `visit_param(zipped, k)`.
pub open spec fn run_from<T: Visitable>(
    s: WalkState<T>,
    zipped: Seq<T::Parameter>,
    k: int,
) -> WalkState<T>
    decreases k,
{
    if k <= 0 {
        s
    } else {
        spec_step(run_from(s, zipped, k - 1), visit_param(zipped, k - 1))
    }
}

/// What a whole visit of the tree under `root` does to the payload:
/// there is a chain of payload values, one per tree node, that starts at
/// `before`, ends at `after`, and whose k-th link is the callback's
/// relation [`Visitable::on_visit_post`] applied to the path of the k-th
/// advance — by the walk's laws, the pre-order path of the k-th node —
/// under the k-th parameter.  The chain's length says the callback runs
/// exactly once per node.
pub open spec fn visit_post<T: Visitable>(
    root: T,
    zipped: Seq<T::Parameter>,
    before: T::Payload,
    after: T::Payload,
) -> bool {
    exists|mids: Seq<T::Payload>|
        {
            &&& mids.len() == flat(root.shape()).len() + 1
            &&& mids[0] == before
            &&& mids.last() == after
            &&& forall|k: int|
                0 <= k < flat(root.shape()).len() ==> root.on_visit_post(
                    path_pairs(run_from(WalkState::init(root.shape()), zipped, k + 1)),
                    #[trigger] mids[k],
                    mids[k + 1],
                )
        }
}

/// Generates a walker for the tree with `root` as its root element.
pub fn visitor<'a, T: Visitable>(root: &'a T, max_depth: usize) -> (r: Visitor<'a, T>)
    ensures
        r.wf(),
        r.state() == WalkState::init(root.shape()),
{
    Visitor::new(root, max_depth)
}

/// Visits `root`, all children and children's children, calling
/// [`Visitable::accumulate`] (through the walker) and
/// [`Visitable::on_visit`] on each node, in pre-order.  The k-th advance
/// is paired with the k-th entry of `zipped`; when the parameters run
/// out, the remaining nodes are visited without one.  The contract says
/// the rest: the payload went through the callback's relation once per
/// tree node, each time with the path of the matching advance.  The walk
/// is iterative, so its depth is bounded by memory, not by the call
/// stack; `max_depth` only pre-sizes the walker's storage.
pub fn visit<T: Visitable>(
    root: &T,
    max_depth: usize,
    zipped: &Vec<T::Parameter>,
    payload: &mut T::Payload,
)
    ensures
        visit_post(*root, zipped@, *old(payload), *final(payload)),
{
    let ghost init = WalkState::<T>::init(root.shape());
    let mut walker = visitor(root, max_depth);
    let mut i: usize = 0;
    let ghost steps: int = 0;
    let ghost mids: Seq<T::Payload> = seq![*payload];
    loop
        invariant
            init == WalkState::<T>::init(root.shape()),
            walker.wf(),
            walker.state() == run_from(init, zipped@, steps),
            walker.state().root == root.shape(),
            steps >= 0,
            walker.state().visited.len() == steps,
            steps <= zipped@.len() ==> i == steps,
            steps > zipped@.len() ==> i == zipped@.len(),
            mids.len() == steps + 1,
            mids[0] == *old(payload),
            mids.last() == *payload,
            forall|k: int|
                0 <= k < steps ==> root.on_visit_post(
                    path_pairs(run_from(init, zipped@, k + 1)),
                    #[trigger] mids[k],
                    mids[k + 1],
                ),
        decreases
                walker.state().remaining().len() + (if walker.state().started {
                    0int
                } else {
                    1int
                }),
    {
        let parameter: Option<&T::Parameter> = if i < zipped.len() {
            let q = Some(&zipped[i]);
            i = i + 1;
            q
        } else {
            None
        };
        let ghost pre = walker.state();
        proof {
            walker.lemma_wf();
            lemma_step(pre, read_parameter(parameter));
            assert(read_parameter(parameter) == visit_param(zipped@, steps));
        }
        match walker.advance(parameter) {
            Some(stack) => {
                proof {
                    assert(walker.state() == run_from(init, zipped@, steps + 1));
                    assert(read_stack(stack@) =~= path_pairs(walker.state()));
                }
                let ghost before_visit = *payload;
                root.on_visit(&stack, payload);
                proof {
                    steps = steps + 1;
                    mids = mids.push(*payload);
                    assert forall|k: int| 0 <= k < steps implies root.on_visit_post(
                        path_pairs(run_from(init, zipped@, k + 1)),
                        #[trigger] mids[k],
                        mids[k + 1],
                    ) by {
                        if k == steps - 1 {
                            assert(mids[k] == before_visit);
                            assert(mids[k + 1] == *payload);
                        }
                    }
                }
            },
            None => {
                proof {
                    assert(pre.visited + pre.remaining() == flat(pre.root));
                    assert(pre.visited =~= flat(root.shape()));
                    assert(visit_post(*root, zipped@, *old(payload), *payload));
                }
                return ;
            },
        }
    }
}

} // verus!
