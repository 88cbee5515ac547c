use treewalk::{visit, visitor, Accumulable, Node, Visiting, Visitor};

fn leaf(val: i32) -> Node {
    Node::new(val, vec![])
}

#[test]
fn test_trivial_visitable() {
    // A simple tree: root node with two children.
    let tree = Node::new(1, vec![Node::new(2, vec![]), Node::new(3, vec![])]);
    // Parameter vector for the nodes.
    let parameters: Vec<i32> = vec![2, 3, 4];
    // The payload collects each visited node's accumulator.
    let mut collected: Vec<i32> = Vec::new();
    visit(&tree, 2, &parameters, &mut collected);
    // To verify the correctness.
    let expectation: Vec<i32> = vec![2, 8, 14];
    assert!(expectation == collected);
}

#[test]
fn test_trivial_visitor() {
    // A simple tree: root node with two children.
    let tree = Node::new(1, vec![Node::new(2, vec![]), Node::new(3, vec![])]);
    // Set up the visitor.
    let mut visitor = Visitor::new(&tree, 2);
    // Parameter vector for the nodes.
    let parameters: [i32; 3] = [2, 3, 4];
    let mut parameter = parameters.iter();
    // To verify the correctness.
    let expectation: [i32; 3] = [2, 8, 14];
    let mut expected = expectation.iter();
    // Visit the nodes.
    while let Some(stack) = visitor.next(parameter.next()) {
        let (node, acc) = stack.last().unwrap();
        let depth = stack.len();
        println!("Node: {}, {acc}, (depth {depth})", node.val);
        assert!(expected.next().unwrap() == acc);
    }
    assert!(expected.next().is_none());
}

#[test]
fn single_leaf_root() {
    let tree = leaf(5);
    let mut walker = Visitor::new(&tree, 1);
    let parameter: i32 = 3;
    let stack = walker.advance(Some(&parameter)).unwrap();
    assert_eq!(stack.len(), 1);
    assert_eq!(stack[0].1, 15);
    assert!(walker.advance(None).is_none());
}

#[test]
fn exhaustion_is_terminal() {
    let tree = Node::new(1, vec![leaf(2)]);
    let mut walker = Visitor::new(&tree, 2);
    while walker.next(None).is_some() {}
    let mut i: usize = 0;
    while i < 4 {
        assert!(walker.next(None).is_none());
        i += 1;
    }
}

#[test]
fn preorder_depth_first_order() {
    let tree = Node::new(
        1,
        vec![Node::new(2, vec![leaf(4), leaf(5)]), Node::new(3, vec![leaf(6)])],
    );
    let mut walker = Visitor::new(&tree, 3);
    let mut order: Vec<i32> = Vec::new();
    let mut depths: Vec<usize> = Vec::new();
    while let Some(stack) = walker.next(None) {
        let (node, _) = stack.last().unwrap();
        order.push(node.val);
        depths.push(stack.len());
    }
    // Every node exactly once; a left sibling's subtree before the right's.
    assert_eq!(order, vec![1, 2, 4, 5, 3, 6]);
    assert_eq!(depths, vec![1, 2, 3, 3, 2, 3]);
}

#[test]
fn accumulators_fold_along_each_path() {
    let tree = Node::new(1, vec![Node::new(2, vec![leaf(4)]), leaf(3)]);
    let parameters: Vec<i32> = vec![10, 100, 1000];
    let mut parameter = parameters.iter();
    let mut walker = Visitor::new(&tree, 3);
    let mut seen: Vec<Vec<i32>> = Vec::new();
    while let Some(stack) = walker.next(parameter.next()) {
        seen.push(stack.iter().map(|e| e.1).collect());
    }
    // Accumulation is val * parameter + inherited; the fourth step has no
    // parameter left, so the multiplier falls back to one.  Backtracking
    // out of the first subtree does not disturb the root's accumulator.
    assert_eq!(
        seen,
        vec![vec![10], vec![10, 210], vec![10, 210, 4210], vec![10, 13]]
    );
}

#[test]
fn rederivation_is_identical() {
    let tree = Node::new(7, vec![Node::new(8, vec![leaf(9)]), leaf(10)]);
    let parameters: Vec<i32> = vec![2, 3, 4, 5];
    let run = |hint: usize| -> Vec<(i32, i32, usize)> {
        let mut walker = Visitor::new(&tree, hint);
        let mut parameter = parameters.iter();
        let mut out: Vec<(i32, i32, usize)> = Vec::new();
        while let Some(stack) = walker.next(parameter.next()) {
            let (node, acc) = stack.last().unwrap();
            out.push((node.val, *acc, stack.len()));
        }
        out
    };
    let first = run(3);
    // A hint that is too small only pre-sizes less; the walk is identical.
    let second = run(0);
    assert_eq!(first, second);
}

#[test]
fn deep_chain_beyond_hint() {
    let mut tree = leaf(1);
    let mut i: usize = 0;
    while i < 99 {
        tree = Node::new(1, vec![tree]);
        i += 1;
    }
    let mut walker = Visitor::new(&tree, 1);
    let mut count: usize = 0;
    let mut deepest: usize = 0;
    while let Some(stack) = walker.next(None) {
        count += 1;
        if stack.len() > deepest {
            deepest = stack.len();
        }
    }
    assert_eq!(count, 100);
    assert_eq!(deepest, 100);
}

#[test]
fn leaf_paths_are_backtracked_at_once() {
    let tree = Node::new(1, vec![Node::new(2, vec![leaf(4), leaf(5)]), leaf(3)]);
    let mut walker = Visitor::new(&tree, 3);
    let mut last_leaf_depth: Option<usize> = None;
    while let Some(stack) = walker.next(None) {
        let depth = stack.len();
        if let Some(d) = last_leaf_depth {
            // A leaf's path never reappears with a deeper suffix.
            assert!(depth <= d);
        }
        let (node, _) = stack.last().unwrap();
        last_leaf_depth = if node.children.is_empty() { Some(depth) } else { None };
    }
}

#[test]
fn visitor_factory_matches_direct_construction() {
    let tree = Node::new(1, vec![leaf(2)]);
    let mut a = visitor(&tree, 2);
    let mut b = Visitor::new(&tree, 2);
    loop {
        match (a.next(None), b.next(None)) {
            (Some(sa), Some(sb)) => {
                assert_eq!(sa.last().unwrap().0.val, sb.last().unwrap().0.val);
                assert_eq!(sa.last().unwrap().1, sb.last().unwrap().1);
            }
            (None, None) => break,
            _ => panic!("the two walks disagree"),
        }
    }
}

#[test]
fn integer_accumulation() {
    let neutral: i32 = <i32 as Accumulable>::neutral();
    assert_eq!(neutral, 0);
    assert_eq!(5i32.accumulate(&7), 12);
    assert_eq!(5i32.duplicate(), 5);
}

#[test]
fn accumulation_wraps_on_overflow() {
    let tree = leaf(i32::MAX);
    let parameters: Vec<i32> = vec![2];
    let mut collected: Vec<i32> = Vec::new();
    visit(&tree, 1, &parameters, &mut collected);
    assert_eq!(collected, vec![i32::MAX.wrapping_mul(2)]);
}

#[test]
fn driver_fallback_when_parameters_run_out() {
    let tree = Node::new(1, vec![Node::new(2, vec![leaf(4)]), leaf(3)]);
    let parameters: Vec<i32> = vec![10, 100];
    let mut collected: Vec<i32> = Vec::new();
    visit(&tree, 3, &parameters, &mut collected);
    // Accumulation is val * parameter + inherited; the third and fourth
    // visits have no parameter left, so their multiplier falls back to one.
    assert_eq!(collected, vec![10, 210, 214, 13]);
}
