//! A ready-made traversable node: an integer value with owned children.

use vstd::prelude::*;

use crate::laws::lemma_driven_run;
use crate::tree::{flat, Tree};
use crate::visitable::{read_stack, run_from, visit_post, Accumulable, Visitable};
use crate::walk::{lemma_init, path_pairs, WalkState};

verus! {

/// Integers accumulate by (wrapping) addition; zero is the neutral
/// element.
impl Accumulable for i32 {
    open spec fn spec_neutral() -> i32 {
        0
    }

    open spec fn spec_accumulate(&self, other: &i32) -> i32 {
        vstd::wrapping::i32_specs::wrapping_add(*self, *other)
    }

    fn neutral() -> (r: i32) {
        0i32
    }

    fn accumulate(&self, other: &i32) -> (r: i32) {
        self.wrapping_add(*other)
    }

    fn duplicate(&self) -> (r: i32) {
        *self
    }
}

/// A tree node carrying an integer value, with owned children.
#[derive(Debug)]
pub struct Node {
    /// The value at this node, a placeholder for transformations.
    pub val: i32,
    /// The owned subtrees, in enumeration order.
    pub children: Vec<Node>,
}

impl Node {
    /// Create a node from its value and its children.
    pub fn new(val: i32, children: Vec<Node>) -> (r: Node)
        ensures
            r.val == val,
            r.children == children,
    {
        Node { val, children }
    }
}

/// The shape of the tree rooted at `n`.
pub open spec fn node_shape(n: Node) -> Tree<Node>
    decreases n, 0int,
{
    Tree { node: n, kids: kid_shapes(n.children, 0) }
}

/// The shapes of the trees rooted at `v[i..]`.
pub open spec fn kid_shapes(v: Vec<Node>, i: int) -> Seq<Tree<Node>>
    decreases v, v@.len() - i,
{
    if 0 <= i < v@.len() {
        seq![node_shape(v[i])] + kid_shapes(v, i + 1)
    } else {
        Seq::empty()
    }
}

/// Each entry of `kid_shapes(v, i)` is the shape of the matching node.
pub proof fn lemma_kid_shapes(v: Vec<Node>, i: int)
    requires
        0 <= i <= v@.len(),
    ensures
        kid_shapes(v, i).len() == v@.len() - i,
        forall|j: int|
            0 <= j < v@.len() - i ==> #[trigger] kid_shapes(v, i)[j] == node_shape(v[i + j]),
    decreases v@.len() - i,
{
    if i < v@.len() {
        lemma_kid_shapes(v, i + 1);
    }
}

impl Visitable for Node {
    type Accumulator = i32;

    type Parameter = i32;

    type Payload = Vec<i32>;

    open spec fn shape(&self) -> Tree<Node> {
        node_shape(*self)
    }

    proof fn lemma_shape(&self) {
        lemma_kid_shapes(self.children, 0);
    }

    /// This node's value times the parameter (one when the parameters
    /// have run out), added to the inherited accumulator, each operation
    /// wrapping.
    open spec fn spec_accumulate(&self, acc: i32, zipped: Option<i32>) -> i32 {
        vstd::wrapping::i32_specs::wrapping_add(
            vstd::wrapping::i32_specs::wrapping_mul(
                self.val,
                match zipped {
                    Some(p) => p,
                    None => 1,
                },
            ),
            acc,
        )
    }

    fn children(&self) -> (r: Vec<&Node>) {
        let mut out: Vec<&Node> = Vec::new();
        let mut i: usize = 0;
        while i < self.children.len()
            invariant
                i <= self.children@.len(),
                out@.len() == i,
                forall|j: int| 0 <= j < i ==> *(#[trigger] out@[j]) == self.children@[j],
            decreases self.children@.len() - i,
        {
            out.push(&self.children[i]);
            i = i + 1;
        }
        proof {
            lemma_kid_shapes(self.children, 0);
        }
        out
    }

    fn accumulate(&self, acc: &i32, zipped: Option<&i32>) -> (r: i32) {
        let m: i32 = match zipped {
            Some(p) => *p,
            None => 1,
        };
        self.val.wrapping_mul(m).wrapping_add(*acc)
    }

    /// Each visit appends the accumulator of the visited node — the last
    /// path entry — to the payload; an empty path leaves it unchanged.
    open spec fn on_visit_post(&self, stack: Seq<(Node, i32)>, before: Vec<i32>, after: Vec<
        i32,
    >) -> bool {
        if stack.len() > 0 {
            after@ == before@.push(stack.last().1)
        } else {
            after == before
        }
    }

    /// Record the accumulator of the visited node — the last path entry —
    /// in the payload.
    fn on_visit(&self, stack: &Vec<(&Node, i32)>, payload: &mut Vec<i32>) {
        if stack.len() > 0 {
            let last = &stack[stack.len() - 1];
            payload.push(last.1);
            proof {
                assert(read_stack(stack@).last().1 == stack@.last().1);
            }
        }
    }
}

/// The accumulator each visit of a driven walk over `root` records: the
/// one at the end of the path of the k-th advance.
pub open spec fn visit_accs(root: Node, zipped: Seq<i32>) -> Seq<i32> {
    Seq::new(
        flat(node_shape(root)).len(),
        |k: int|
            path_pairs(
                run_from(WalkState::init(node_shape(root)), zipped, k + 1),
            ).last().1,
    )
}

/// The chain of a visit's payload values, followed link by link: after
/// `j` links, the payload holds what it held before the visit, then the
/// first `j` recorded accumulators.
proof fn lemma_node_chain(root: Node, zipped: Seq<i32>, mids: Seq<Vec<i32>>, j: int)
    requires
        0 <= j <= flat(node_shape(root)).len(),
        mids.len() == flat(node_shape(root)).len() + 1,
        forall|k: int|
            0 <= k < flat(node_shape(root)).len() ==> root.on_visit_post(
                path_pairs(run_from(WalkState::init(node_shape(root)), zipped, k + 1)),
                #[trigger] mids[k],
                mids[k + 1],
            ),
    ensures
        mids[j]@ == mids[0]@ + visit_accs(root, zipped).take(j),
    decreases j,
{
    let init = WalkState::<Node>::init(node_shape(root));
    lemma_init::<Node>(node_shape(root));
    if j == 0 {
        assert(mids[0]@ =~= mids[0]@ + visit_accs(root, zipped).take(0));
    } else {
        lemma_node_chain(root, zipped, mids, j - 1);
        lemma_driven_run(init, zipped, j);
        let sj = run_from(init, zipped, j);
        assert(path_pairs(sj).len() == sj.path.len());
        assert(mids[j]@ == mids[j - 1]@.push(path_pairs(sj).last().1));
        assert(mids[j]@ =~= mids[0]@ + visit_accs(root, zipped).take(j));
    }
}

/// What a whole visit does to an integer payload: it appends exactly the
/// accumulators of the visited nodes, one per tree node, in visitation
/// order.
pub proof fn lemma_node_visit_payload(root: Node, zipped: Seq<i32>, before: Vec<i32>, after: Vec<
    i32,
>)
    requires
        visit_post::<Node>(root, zipped, before, after),
    ensures
        after@ == before@ + visit_accs(root, zipped),
{
    let n = flat(node_shape(root)).len() as int;
    let mids = choose|mids: Seq<Vec<i32>>|
        {
            &&& mids.len() == flat(node_shape(root)).len() + 1
            &&& mids[0] == before
            &&& mids.last() == after
            &&& forall|k: int|
                0 <= k < flat(node_shape(root)).len() ==> root.on_visit_post(
                    path_pairs(run_from(WalkState::init(node_shape(root)), zipped, k + 1)),
                    #[trigger] mids[k],
                    mids[k + 1],
                )
        };
    lemma_node_chain(root, zipped, mids, n);
    assert(visit_accs(root, zipped).take(n) =~= visit_accs(root, zipped));
}

} // verus!

