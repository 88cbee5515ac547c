//! The laws of a walk, stated over the mathematical model and proved
//! once for every tree, every walker, and every parameter sequence.

use vstd::prelude::*;

use crate::tree::{flat, is_child_of};
use crate::visitable::{run_from, visit_param, Visitable};
use crate::walk::{acc_along, path_nodes, popped, rem_levels, spec_step, WalkState};
use crate::walk::lemma_step;

verus! {

/// Path correctness: in every reachable walk state the path is exactly
/// the ancestor chain from the root to the node visited last — it begins
/// at the root, and each later entry is a direct subtree of the entry
/// before it.  Its length is the current depth by construction.
pub proof fn lemma_path_is_ancestor_chain<T: Visitable>(s: WalkState<T>)
    requires
        s.wf(),
        s.path.len() > 0,
    ensures
        s.path[0] == s.root,
        forall|i: int|
            0 <= i < s.path.len() - 1 ==> #[trigger] is_child_of(s.path[i + 1], s.path[i]),
{
    assert forall|i: int| 0 <= i < s.path.len() - 1 implies #[trigger] is_child_of(
        s.path[i + 1],
        s.path[i],
    ) by {
        let j = s.cursors[i] - 1;
        assert(0 <= j < s.path[i].kids.len() && s.path[i + 1] == s.path[i].kids[j]);
    }
}

/// Accumulator fold law: in every reachable walk state, the accumulator
/// at path position `i` is the fold, left to right and seeded with the
/// neutral element, of each ancestor's contribution under the parameter
/// supplied at its step.
pub proof fn lemma_accumulator_fold<T: Visitable>(s: WalkState<T>, i: int)
    requires
        s.wf(),
        0 <= i < s.path.len(),
    ensures
        s.accs[i] == acc_along(path_nodes(s.path), s.pars, i),
{
}

/// Visitation completeness and order: in every reachable walk state the
/// nodes visited so far are exactly the first entries of the tree's
/// pre-order sequence — so a left sibling's subtree is finished before a
/// right sibling's begins — and once the walk is exhausted, that whole
/// sequence has been visited: every node exactly once.
pub proof fn lemma_preorder_visitation<T: Visitable>(s: WalkState<T>)
    requires
        s.wf(),
    ensures
        s.visited == flat(s.root).take(s.visited.len() as int),
        s.exhausted() ==> s.visited == flat(s.root),
{
    assert(s.visited =~= flat(s.root).take(s.visited.len() as int));
    if s.exhausted() {
        assert(s.remaining() == rem_levels(s.path, s.cursors, 0));
        assert(s.visited =~= flat(s.root));
    }
}

/// No advance deepens the path by more than the one node it visits, and
/// an advance that finds the deepest level exhausted does not deepen it
/// at all.
pub proof fn lemma_step_depth<T: Visitable>(s: WalkState<T>, p: Option<T::Parameter>)
    ensures
        spec_step(s, p).path.len() <= s.path.len() + 1,
        s.started && s.path.len() > 0 && s.cursors[s.path.len() - 1] >= s.path[s.path.len()
            - 1].kids.len() ==> spec_step(s, p).path.len() <= s.path.len(),
    decreases s.path.len(),
{
    if s.started && s.path.len() > 0 && s.cursors[s.path.len() - 1] >= s.path[s.path.len()
        - 1].kids.len() {
        lemma_step_depth(popped(s), p);
    }
}

/// Leaf immediacy: a node with no children is visited and then
/// immediately backtracked — the advance that follows a leaf never
/// extends the leaf's path, so that path never reappears with a deeper
/// suffix.
pub proof fn lemma_leaf_immediacy<T: Visitable>(s: WalkState<T>, p: Option<T::Parameter>)
    requires
        s.wf(),
        s.started,
        s.path.len() > 0,
        s.path.last().kids.len() == 0,
    ensures
        spec_step(s, p).path.len() <= s.path.len(),
{
    lemma_step_depth(s, p);
}

/// Exhaustion terminality: once the walk is exhausted, every further
/// advance leaves the state — in particular the visited sequence —
/// unchanged, whatever parameter it is given.
pub proof fn lemma_exhaustion_terminal<T: Visitable>(s: WalkState<T>, p: Option<T::Parameter>)
    requires
        s.exhausted(),
    ensures
        spec_step(s, p) == s,
{
}

/// The state after a whole sequence of advances, one per parameter.
pub open spec fn run_trace<T: Visitable>(
    s: WalkState<T>,
    pars: Seq<Option<T::Parameter>>,
) -> WalkState<T>
    decreases pars.len(),
{
    if pars.len() == 0 {
        s
    } else {
        run_trace(spec_step(s, pars[0]), pars.drop_first())
    }
}

/// Idempotent re-derivation: two walks over the same root shape, given
/// the same parameter sequence, pass through identical states — in
/// particular they visit the same nodes with the same accumulators, bit
/// for bit.  Since a fresh walker starts in the initial state for every
/// depth hint, re-running a traversal re-derives the same result.
pub proof fn lemma_rederivation<T: Visitable>(
    s1: WalkState<T>,
    s2: WalkState<T>,
    pars: Seq<Option<T::Parameter>>,
)
    requires
        s1 == WalkState::init(s1.root),
        s2 == WalkState::init(s2.root),
        s1.root == s2.root,
    ensures
        run_trace(s1, pars) == run_trace(s2, pars),
{
    assert(s1 == s2);
}

/// The driven run, advance by advance: after `k` advances from a
/// reachable state, as long as nodes were owed, the k-th advance visited
/// exactly the k-th owed node — over the initial state, the k-th entry
/// of the tree's pre-order sequence — with that node at the end of the
/// path and the k-th supplied parameter recorded at its level; what was
/// visited is the first `k` owed nodes, in order, and what stays owed is
/// the rest.
pub proof fn lemma_driven_run<T: Visitable>(s: WalkState<T>, zipped: Seq<T::Parameter>, k: int)
    requires
        s.wf(),
        k >= 0,
    ensures
        run_from(s, zipped, k).wf(),
        run_from(s, zipped, k).root == s.root,
        s.remaining().len() >= k ==> run_from(s, zipped, k).remaining() == s.remaining().skip(k),
        s.remaining().len() >= k >= 1 ==> run_from(s, zipped, k).path.len() > 0,
        s.remaining().len() >= k >= 1 ==> run_from(s, zipped, k).path.last().node == s.remaining()[
            k - 1],
        s.remaining().len() >= k >= 1 ==> run_from(s, zipped, k).pars.last() == visit_param(
            zipped,
            k - 1,
        ),
        s.remaining().len() >= k >= 1 ==> run_from(s, zipped, k).visited == s.visited
            + s.remaining().take(k),
    decreases k,
{
    if k == 0 {
        if s.remaining().len() >= 0 {
            assert(run_from(s, zipped, 0).remaining() =~= s.remaining().skip(0));
        }
    } else {
        lemma_driven_run(s, zipped, k - 1);
        let s1 = run_from(s, zipped, k - 1);
        lemma_step(s1, visit_param(zipped, k - 1));
        if s.remaining().len() >= k {
            assert(s1.remaining() == s.remaining().skip(k - 1));
            assert(s1.remaining()[0] == s.remaining()[k - 1]);
            assert(run_from(s, zipped, k).remaining() =~= s.remaining().skip(k));
            if k == 1 {
                assert(s1.visited =~= s.visited + s.remaining().take(0));
            }
            assert(run_from(s, zipped, k).visited =~= s.visited + s.remaining().take(k));
        }
    }
}

/// A reachable state that still owes nodes yields, on its next advance,
/// exactly the first owed node; all of `lemma_step`'s guarantees, here
/// restated for the whole run: induction gives that the k-th visited
/// node is the k-th entry of the pre-order sequence.
pub proof fn lemma_run_visits_preorder<T: Visitable>(
    s: WalkState<T>,
    pars: Seq<Option<T::Parameter>>,
)
    requires
        s.wf(),
    ensures
        run_trace(s, pars).wf(),
        run_trace(s, pars).root == s.root,
        run_trace(s, pars).visited.len() >= s.visited.len(),
        pars.len() >= s.remaining().len() ==> run_trace(s, pars).visited == flat(s.root),
    decreases pars.len(),
{
    if pars.len() > 0 {
        lemma_step(s, pars[0]);
        lemma_run_visits_preorder(spec_step(s, pars[0]), pars.drop_first());
        lemma_preorder_visitation(run_trace(s, pars));
        if pars.len() >= s.remaining().len() && s.remaining().len() > 0 {
            assert(spec_step(s, pars[0]).remaining() == s.remaining().drop_first());
        }
    } else {
        if s.remaining().len() == 0 {
            assert(s.visited =~= flat(s.root));
        }
    }
}

} // verus!
