//! The mathematical model of one depth-first walk: its state, its step
//! function, and the invariant every reachable state satisfies.

use vstd::prelude::*;

use crate::tree::{flat, flat_from, lemma_flat_first, Tree};
use crate::visitable::{Accumulable, Visitable};

verus! {

/// The state of a walk over a tree of `T` nodes.  `path` holds the shape
/// of each node on the current root-to-node path; `cursors[i]` is the
/// index of the next unvisited child at level `i`; `accs[i]` is the
/// accumulator at level `i`; `pars[i]` is the parameter supplied when
/// level `i` was entered; `visited` lists every node visited so far, in
/// visitation order.
#[verifier::ext_equal]
pub struct WalkState<T: Visitable> {
    /// Shape of the whole tree being walked.
    pub root: Tree<T>,
    /// Shapes of the nodes on the current path, root first.
    pub path: Seq<Tree<T>>,
    /// Accumulator at each path level.
    pub accs: Seq<T::Accumulator>,
    /// Index of the next unvisited child at each path level.
    pub cursors: Seq<int>,
    /// Parameter supplied when each path level was entered.
    pub pars: Seq<Option<T::Parameter>>,
    /// Node values visited so far, in visitation order.
    pub visited: Seq<T>,
    /// Whether the walk has made its first step.
    pub started: bool,
}

/// The node values along a path of shapes.
pub open spec fn path_nodes<T: Visitable>(path: Seq<Tree<T>>) -> Seq<T> {
    path.map_values(|t: Tree<T>| t.node)
}

/// The accumulator at position `i` of a path: the fold, left to right
/// and starting from the neutral element, of each node's contribution
/// under the parameter supplied at its step.
pub open spec fn acc_along<T: Visitable>(
    nodes: Seq<T>,
    pars: Seq<Option<T::Parameter>>,
    i: int,
) -> T::Accumulator
    decreases i + 1,
{
    if i < 0 {
        <T::Accumulator as Accumulable>::spec_neutral()
    } else {
        nodes[i].spec_accumulate(acc_along(nodes, pars, i - 1), pars[i])
    }
}

/// The node values not yet visited at levels below `k`: for each level,
/// the pre-order sequences of its unexplored subtrees, deepest level first.
pub open spec fn rem_levels<T>(path: Seq<Tree<T>>, cursors: Seq<int>, k: int) -> Seq<T>
    decreases k,
{
    if k <= 0 {
        Seq::empty()
    } else {
        flat_from(path[k - 1].kids, cursors[k - 1]) + rem_levels(path, cursors, k - 1)
    }
}

impl<T: Visitable> WalkState<T> {
    /// The state of a walk over `root` before its first step.
    pub open spec fn init(root: Tree<T>) -> WalkState<T> {
        WalkState {
            root,
            path: Seq::empty(),
            accs: Seq::empty(),
            cursors: Seq::empty(),
            pars: Seq::empty(),
            visited: Seq::empty(),
            started: false,
        }
    }

    /// The node values the walk still owes its caller, in the order it
    /// will visit them.
    pub open spec fn remaining(self) -> Seq<T> {
        if self.started {
            rem_levels(self.path, self.cursors, self.path.len() as int)
        } else {
            flat(self.root)
        }
    }

    /// The walk is over: it has started and the path stack is empty.
    pub open spec fn exhausted(self) -> bool {
        self.started && self.path.len() == 0
    }

    /// The invariant of every reachable walk state.
    pub open spec fn wf(self) -> bool {
        &&& self.accs.len() == self.path.len()
        &&& self.cursors.len() == self.path.len()
        &&& self.pars.len() == self.path.len()
        &&& (!self.started ==> self.path.len() == 0 && self.visited.len() == 0)
        &&& (self.path.len() > 0 ==> self.started && self.path[0] == self.root)
        &&& (forall|i: int|
            0 <= i < self.path.len() ==> 0 <= #[trigger] self.cursors[i]
                <= self.path[i].kids.len())
        &&& (forall|i: int| 0 <= i < self.path.len() - 1 ==> 1 <= #[trigger] self.cursors[i])
        &&& (forall|i: int|
            0 <= i < self.path.len() - 1 ==> #[trigger] self.path[i + 1] == self.path[i].kids[
                self.cursors[i] - 1])
        &&& (forall|i: int|
            0 <= i < self.path.len() ==> #[trigger] self.accs[i] == acc_along(
                path_nodes(self.path),
                self.pars,
                i,
            ))
        &&& self.visited + self.remaining() == flat(self.root)
    }
}

/// The (node, accumulator) pairs along a state's path, root first: what
/// a walker hands the visit callback after the step that reached this
/// state.
pub open spec fn path_pairs<T: Visitable>(s: WalkState<T>) -> Seq<(T, T::Accumulator)> {
    Seq::new(s.path.len(), |i: int| (s.path[i].node, s.accs[i]))
}

/// The entry transition: the root is visited with the neutral element as
/// the inherited accumulator.
pub open spec fn entered<T: Visitable>(s: WalkState<T>, p: Option<T::Parameter>) -> WalkState<T> {
    WalkState {
        path: seq![s.root],
        accs: seq![
            s.root.node.spec_accumulate(<T::Accumulator as Accumulable>::spec_neutral(), p),
        ],
        cursors: seq![0int],
        pars: seq![p],
        visited: seq![s.root.node],
        started: true,
        ..s
    }
}

/// The descending transition: the next unvisited child of the deepest
/// level is visited, with the accumulator inherited from that level.
pub open spec fn descended<T: Visitable>(s: WalkState<T>, p: Option<T::Parameter>) -> WalkState<
    T,
> {
    let n = s.path.len() - 1;
    let child = s.path[n].kids[s.cursors[n]];
    WalkState {
        path: s.path.push(child),
        accs: s.accs.push(child.node.spec_accumulate(s.accs[n], p)),
        cursors: s.cursors.update(n, s.cursors[n] + 1).push(0int),
        pars: s.pars.push(p),
        visited: s.visited.push(child.node),
        ..s
    }
}

/// The backtracking transition: the deepest level, whose children are
/// exhausted, leaves the path.
pub open spec fn popped<T: Visitable>(s: WalkState<T>) -> WalkState<T> {
    WalkState {
        path: s.path.drop_last(),
        accs: s.accs.drop_last(),
        cursors: s.cursors.drop_last(),
        pars: s.pars.drop_last(),
        ..s
    }
}

/// One advance of the walk under an optional parameter: enter the root
/// on the first step; then descend to the next unvisited child of the
/// deepest possible level, popping exhausted levels on the way; once the
/// path stack is empty, stay put.
pub open spec fn spec_step<T: Visitable>(s: WalkState<T>, p: Option<T::Parameter>) -> WalkState<T>
    decreases s.path.len(),
{
    if !s.started {
        entered(s, p)
    } else if s.path.len() == 0 {
        s
    } else if s.cursors[s.path.len() - 1] < s.path[s.path.len() - 1].kids.len() {
        descended(s, p)
    } else {
        spec_step(popped(s), p)
    }
}

/// Two accumulator folds agree when the nodes and parameters agree up to
/// the position folded.
pub proof fn lemma_acc_along_agree<T: Visitable>(
    nodes1: Seq<T>,
    pars1: Seq<Option<T::Parameter>>,
    nodes2: Seq<T>,
    pars2: Seq<Option<T::Parameter>>,
    i: int,
)
    requires
        forall|j: int| 0 <= j <= i ==> #[trigger] nodes1[j] == nodes2[j],
        forall|j: int| 0 <= j <= i ==> #[trigger] pars1[j] == pars2[j],
    ensures
        acc_along(nodes1, pars1, i) == acc_along(nodes2, pars2, i),
    decreases i + 1,
{
    if i >= 0 {
        lemma_acc_along_agree(nodes1, pars1, nodes2, pars2, i - 1);
    }
}

/// Two remainders agree when the levels below `k` agree.
pub proof fn lemma_rem_levels_agree<T>(
    path1: Seq<Tree<T>>,
    cursors1: Seq<int>,
    path2: Seq<Tree<T>>,
    cursors2: Seq<int>,
    k: int,
)
    requires
        forall|j: int| 0 <= j < k ==> #[trigger] path1[j] == path2[j],
        forall|j: int| 0 <= j < k ==> #[trigger] cursors1[j] == cursors2[j],
    ensures
        rem_levels(path1, cursors1, k) == rem_levels(path2, cursors2, k),
    decreases k,
{
    if k > 0 {
        lemma_rem_levels_agree(path1, cursors1, path2, cursors2, k - 1);
    }
}

/// Backtracking preserves the invariant and changes neither what was
/// visited nor what is owed.
pub proof fn lemma_pop<T: Visitable>(s: WalkState<T>)
    requires
        s.wf(),
        s.path.len() > 0,
        s.cursors[s.path.len() - 1] >= s.path[s.path.len() - 1].kids.len(),
    ensures
        popped(s).wf(),
        popped(s).remaining() == s.remaining(),
        popped(s).visited == s.visited,
        popped(s).root == s.root,
        popped(s).started,
{
    let n = s.path.len() as int;
    let s1 = popped(s);
    assert forall|i: int| 0 <= i < s1.path.len() implies #[trigger] s1.accs[i] == acc_along(
        path_nodes(s1.path),
        s1.pars,
        i,
    ) by {
        lemma_acc_along_agree(
            path_nodes(s1.path),
            s1.pars,
            path_nodes(s.path),
            s.pars,
            i,
        );
    }
    lemma_rem_levels_agree(s1.path, s1.cursors, s.path, s.cursors, n - 1);
    assert(flat_from(s.path[n - 1].kids, s.cursors[n - 1]) == Seq::<T>::empty());
    assert(s.remaining() =~= rem_levels(s.path, s.cursors, n - 1));
    assert(s1.remaining() == rem_levels(s1.path, s1.cursors, n - 1));
}

/// A walk's initial state satisfies the invariant and owes exactly the
/// whole tree in pre-order.
pub proof fn lemma_init<T: Visitable>(root: Tree<T>)
    ensures
        WalkState::init(root).wf(),
        WalkState::init(root).remaining() == flat(root),
{
    assert(Seq::<T>::empty() + flat(root) =~= flat(root));
}

/// Descending preserves the invariant: the next unvisited child of the
/// deepest level is exactly the next owed node, and its accumulator
/// extends the fold by one step under the given parameter.
pub proof fn lemma_descend<T: Visitable>(s: WalkState<T>, p: Option<T::Parameter>)
    requires
        s.wf(),
        s.path.len() > 0,
        s.cursors[s.path.len() - 1] < s.path[s.path.len() - 1].kids.len(),
    ensures
        descended(s, p).wf(),
        descended(s, p).root == s.root,
        descended(s, p).started,
        s.remaining().len() > 0,
        descended(s, p).visited == s.visited.push(s.remaining()[0]),
        descended(s, p).remaining() == s.remaining().drop_first(),
        descended(s, p).path.len() == s.path.len() + 1,
        descended(s, p).path.last().node == s.remaining()[0],
        descended(s, p).pars.last() == p,
{
    let n = s.path.len() as int;
    let top = s.path[n - 1];
    let pos = s.cursors[n - 1];
    let child = top.kids[pos];
    let s2 = descended::<T>(s, p);
    // what is owed before the step
    assert(s.remaining() == flat_from(top.kids, pos) + rem_levels(s.path, s.cursors, n - 1));
    assert(flat_from(top.kids, pos) == flat(child) + flat_from(top.kids, pos + 1));
    assert(flat(child) == seq![child.node] + flat_from(child.kids, 0));
    assert(s.remaining()[0] == child.node);
    // what is owed after the step
    lemma_rem_levels_agree(s2.path, s2.cursors, s.path, s.cursors, n - 1);
    assert(s2.path[n] == child && s2.cursors[n] == 0int);
    assert(s2.path[n - 1] == top && s2.cursors[n - 1] == pos + 1);
    assert(s2.remaining() == flat_from(s2.path[n].kids, s2.cursors[n]) + rem_levels(
        s2.path,
        s2.cursors,
        n,
    ));
    assert(rem_levels(s2.path, s2.cursors, n) == flat_from(top.kids, pos + 1) + rem_levels(
        s.path,
        s.cursors,
        n - 1,
    ));
    assert(s2.remaining() =~= s.remaining().drop_first());
    // the accumulator fold at every level of the new state
    assert forall|i: int| 0 <= i < s2.path.len() implies #[trigger] s2.accs[i] == acc_along(
        path_nodes(s2.path),
        s2.pars,
        i,
    ) by {
        if i < n {
            lemma_acc_along_agree(path_nodes(s2.path), s2.pars, path_nodes(s.path), s.pars, i);
        } else {
            lemma_acc_along_agree(path_nodes(s2.path), s2.pars, path_nodes(s.path), s.pars, n - 1);
            assert(path_nodes(s2.path)[n] == child.node);
            assert(s2.accs[n] == acc_along(path_nodes(s2.path), s2.pars, n));
        }
    }
    assert(s2.visited + s2.remaining() =~= s.visited + s.remaining());
}

/// The step lemma: every advance from a reachable state lands in a
/// reachable state; while something is owed, the step visits exactly the
/// next owed node and records the step's parameter at the new level;
/// once nothing is owed, the step only unwinds the path and visits
/// nothing further.
pub proof fn lemma_step<T: Visitable>(s: WalkState<T>, p: Option<T::Parameter>)
    requires
        s.wf(),
    ensures
        spec_step(s, p).wf(),
        spec_step(s, p).root == s.root,
        spec_step(s, p).started,
        s.remaining().len() == 0 ==> spec_step(s, p).exhausted() && spec_step(s, p).visited
            == s.visited,
        s.remaining().len() > 0 ==> spec_step(s, p).visited == s.visited.push(s.remaining()[0]),
        s.remaining().len() > 0 ==> spec_step(s, p).remaining() == s.remaining().drop_first(),
        s.remaining().len() > 0 ==> spec_step(s, p).path.len() > 0,
        s.remaining().len() > 0 ==> spec_step(s, p).path.last().node == s.remaining()[0],
        s.remaining().len() > 0 ==> spec_step(s, p).pars.last() == p,
    decreases s.path.len(),
{
    if !s.started {
        let s2 = entered::<T>(s, p);
        lemma_flat_first(s.root);
        assert(s.remaining() == flat(s.root));
        assert(s.visited + s.remaining() == flat(s.root));
        assert(acc_along(path_nodes(s2.path), s2.pars, -1)
            == <T::Accumulator as Accumulable>::spec_neutral());
        assert(path_nodes(s2.path)[0] == s.root.node);
        assert(s2.accs[0] == acc_along(path_nodes(s2.path), s2.pars, 0));
        assert(rem_levels(s2.path, s2.cursors, 0) == Seq::<T>::empty());
        assert(s2.remaining() =~= flat_from(s.root.kids, 0));
        assert(flat(s.root) == seq![s.root.node] + flat_from(s.root.kids, 0));
        assert(s2.remaining() =~= s.remaining().drop_first());
        assert(s2.visited + s2.remaining() =~= flat(s.root));
        assert(s2.visited =~= s.visited.push(s.remaining()[0]));
    } else if s.path.len() == 0 {
        assert(s.remaining() == rem_levels(s.path, s.cursors, 0));
    } else if s.cursors[s.path.len() - 1] < s.path[s.path.len() - 1].kids.len() {
        lemma_descend(s, p);
    } else {
        lemma_pop(s);
        lemma_step(popped(s), p);
    }
}

} // verus!
