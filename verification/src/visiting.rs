//! The iterative depth-first walker.

use vstd::prelude::*;

use crate::tree::Tree;
use crate::visitable::{read_parameter, Accumulable, Visitable, Visiting};
use crate::walk::{descended, entered, popped, spec_step, WalkState};
use crate::walk::{lemma_descend, lemma_init, lemma_pop, lemma_step};

verus! {

/// Walker for depth-first tree traversal, created by [`Visitable::visitor`]
/// or directly with [`Visitor::new`].  It owns an explicit stack of
/// (node, accumulator) pairs — the current root-to-node path — and a
/// parallel stack of child cursors, one per level, so traversal depth is
/// bounded by memory and not by the call stack.  Each call to
/// [`Visitor::advance`] moves the walk by exactly one node.
pub struct Visitor<'a, T: Visitable> {
    /// First element of the tree.
    root: &'a T,
    /// Nodes and accumulated data of the current path.
    stack: Vec<(&'a T, T::Accumulator)>,
    /// Children of each node on the path, with the index of the next
    /// unvisited one.
    children: Vec<(Vec<&'a T>, usize)>,
    /// Whether the walk has made its first step.
    started: bool,
    /// The shape of each node on the path.
    shapes: Ghost<Seq<Tree<T>>>,
    /// The parameter supplied when each level was entered.
    pars: Ghost<Seq<Option<T::Parameter>>>,
    /// The nodes visited so far, in visitation order.
    visited: Ghost<Seq<T>>,
}

impl<'a, T: Visitable> Visitor<'a, T> {
    /// The state of the walk, in the terms of the mathematical model.
    pub closed spec fn state(&self) -> WalkState<T> {
        WalkState {
            root: self.root.shape(),
            path: self.shapes@,
            accs: self.stack@.map_values(|e: (&'a T, T::Accumulator)| e.1),
            cursors: self.children@.map_values(|e: (Vec<&'a T>, usize)| e.1 as int),
            pars: self.pars@,
            visited: self.visited@,
            started: self.started,
        }
    }

    /// The walker's invariant: its state is reachable, and the explicit
    /// stacks mirror the ghost path exactly.
    pub closed spec fn wf(&self) -> bool {
        &&& self.state().wf()
        &&& self.stack@.len() == self.shapes@.len()
        &&& self.children@.len() == self.shapes@.len()
        &&& (forall|i: int|
            0 <= i < self.shapes@.len() ==> *(#[trigger] self.stack@[i].0) == self.shapes@[i].node)
        &&& (forall|i: int|
            0 <= i < self.shapes@.len() ==> (#[trigger] self.children@[i]).0@.len()
                == self.shapes@[i].kids.len())
        &&& (forall|i: int, j: int|
            0 <= i < self.shapes@.len() && 0 <= j < self.shapes@[i].kids.len()
                ==> *(#[trigger] self.children@[i].0@[j]) == self.shapes@[i].kids[j].node)
        &&& (forall|i: int|
            0 <= i < self.shapes@.len() ==> (#[trigger] self.shapes@[i])
                == self.shapes@[i].node.shape())
    }

    /// The walker's invariant carries the model invariant of its state.
    pub proof fn lemma_wf(&self)
        requires
            self.wf(),
        ensures
            self.state().wf(),
    {
    }

    /// Create a new walker for a root node.
    ///
    /// ## Arguments
    ///
    /// `root` – The root of the tree.
    /// `max_depth` – A depth hint used only to pre-size the internal
    /// stacks; deeper trees merely reallocate, and the walk itself is
    /// the same for every hint.
    pub fn new(root: &'a T, max_depth: usize) -> (r: Visitor<'a, T>)
        ensures
            r.wf(),
            r.state() == WalkState::init(root.shape()),
    {
        let r = Visitor {
            root,
            stack: Vec::with_capacity(max_depth),
            children: Vec::with_capacity(max_depth),
            started: false,
            shapes: Ghost(Seq::empty()),
            pars: Ghost(Seq::empty()),
            visited: Ghost(Seq::empty()),
        };
        proof {
            lemma_init::<T>(root.shape());
            assert(r.state() =~= WalkState::init(root.shape()));
        }
        r
    }

    /// A copy of the current path: each node on it, with the value
    /// accumulated from the root through that node.
    fn snapshot(&self) -> (r: Vec<(&'a T, T::Accumulator)>)
        ensures
            r@.len() == self.stack@.len(),
            forall|i: int| 0 <= i < r@.len() ==> (#[trigger] r@[i]).0 == self.stack@[i].0,
            forall|i: int| 0 <= i < r@.len() ==> (#[trigger] r@[i]).1 == self.stack@[i].1,
    {
        let mut out: Vec<(&'a T, T::Accumulator)> = Vec::with_capacity(self.stack.len());
        let mut i: usize = 0;
        while i < self.stack.len()
            invariant
                i <= self.stack@.len(),
                out@.len() == i,
                forall|j: int| 0 <= j < i ==> (#[trigger] out@[j]).0 == self.stack@[j].0,
                forall|j: int| 0 <= j < i ==> (#[trigger] out@[j]).1 == self.stack@[j].1,
            decreases self.stack@.len() - i,
        {
            let entry = &self.stack[i];
            out.push((entry.0, entry.1.duplicate()));
            i = i + 1;
        }
        out
    }

    /// Advance the walk by one node: descend to the next unvisited child
    /// of the deepest possible level — popping levels whose children are
    /// exhausted on the way — and return a copy of the path from the root
    /// to the newly visited node.  Return `None` exactly when no node is
    /// owed any more; from then on every further call returns `None` and
    /// leaves the state unchanged.  `zipped` is handed to the visited
    /// node's accumulation and recorded at the new level.
    pub fn advance(&mut self, zipped: Option<&T::Parameter>) -> (r: Option<
        Vec<(&'a T, T::Accumulator)>,
    >)
        requires
            old(self).wf(),
        ensures
            final(self).wf(),
            final(self).state() == spec_step(old(self).state(), read_parameter(zipped)),
            r is Some <==> old(self).state().remaining().len() > 0,
            r matches Some(v) ==> v@.len() == final(self).state().path.len(),
            r matches Some(v) ==> (forall|i: int|
                0 <= i < v@.len() ==> *((#[trigger] v@[i]).0) == final(self).state().path[i].node),
            r matches Some(v) ==> (forall|i: int|
                0 <= i < v@.len() ==> (#[trigger] v@[i]).1 == final(self).state().accs[i]),
    {
        let ghost s0 = *old(self);
        let ghost p = read_parameter(zipped);
        let root = self.root;
        if !self.started {
            proof {
                lemma_step(s0.state(), p);
                root.lemma_shape();
            }
            self.started = true;
            let neutral = <T::Accumulator as Accumulable>::neutral();
            let acc = root.accumulate(&neutral, zipped);
            let kids = root.children();
            self.stack.push((root, acc));
            self.children.push((kids, 0));
            proof {
                self.shapes@ = seq![root.shape()];
                self.pars@ = seq![p];
                self.visited@ = seq![root.shape().node];
                assert(self.state() =~= entered(s0.state(), p));
            }
            return Some(self.snapshot());
        }
        loop
            invariant
                s0 == *old(self),
                p == read_parameter(zipped),
                s0.wf(),
                self.wf(),
                self.started,
                self.root == s0.root,
                self.visited@ == s0.visited@,
                spec_step(self.state(), p) == spec_step(s0.state(), p),
            decreases self.stack.len(),
        {
            let ghost c0 = *self;
            if self.children.len() == 0 {
                proof {
                    lemma_step(s0.state(), p);
                    assert(self.stack@.len() == 0);
                    assert(spec_step(c0.state(), p) == c0.state());
                    if s0.state().remaining().len() > 0 {
                        assert(spec_step(s0.state(), p).visited.len() == s0.visited@.len() + 1);
                    }
                }
                return None;
            }
            let n = self.children.len();
            let top = self.children.pop().unwrap();
            let (kids, pos) = top;
            if pos < kids.len() {
                let child: &'a T = kids[pos];
                self.children.push((kids, pos + 1));
                let parent = self.stack.pop().unwrap();
                let acc = child.accumulate(&parent.1, zipped);
                let ckids = child.children();
                self.stack.push(parent);
                self.stack.push((child, acc));
                self.children.push((ckids, 0));
                let ghost ct = c0.shapes@[n - 1].kids[pos as int];
                proof {
                    self.shapes@ = self.shapes@.push(ct);
                    self.pars@ = self.pars@.push(p);
                    self.visited@ = self.visited@.push(ct.node);
                    lemma_step(s0.state(), p);
                    lemma_descend(c0.state(), p);
                    let ghost pn = c0.shapes@[n - 1].node;
                    pn.lemma_shape();
                    assert(ct == ct.node.shape());
                    assert(*child == ct.node);
                    assert(self.stack@ =~= c0.stack@.push((child, acc)));
                    assert(self.children@ =~= c0.children@.update(
                        n - 1,
                        (kids, (pos + 1) as usize),
                    ).push((ckids, 0)));
                    assert(self.state().accs =~= descended(c0.state(), p).accs);
                    assert(self.state().cursors =~= descended(c0.state(), p).cursors);
                    assert(self.state() =~= descended(c0.state(), p));
                    assert(spec_step(c0.state(), p) == descended(c0.state(), p));
                    if s0.state().remaining().len() == 0 {
                        assert(spec_step(s0.state(), p).visited == s0.visited@);
                        assert(false);
                    }
                }
                return Some(self.snapshot());
            } else {
                let _ = self.stack.pop();
                proof {
                    self.shapes@ = self.shapes@.drop_last();
                    self.pars@ = self.pars@.drop_last();
                    lemma_pop(c0.state());
                    assert(self.state() =~= popped(c0.state()));
                    assert(spec_step(c0.state(), p) == spec_step(popped(c0.state()), p));
                }
            }
        }
    }
}

impl<'a, T: Visitable> Visiting<'a, T, T::Parameter, T::Accumulator> for Visitor<'a, T> {
    open spec fn ready(&self) -> bool {
        self.wf()
    }

    fn next(&mut self, parameter: Option<&T::Parameter>) -> (r: Option<
        Vec<(&'a T, T::Accumulator)>,
    >) {
        self.advance(parameter)
    }
}

} // verus!
