use helios::bvh::BVHNode;

type Interval = (i64, i64);

fn union(a: Interval, b: Interval) -> Interval {
    (a.0.min(b.0), a.1.max(b.1))
}

fn leaves(node: &BVHNode<Interval, char>, out: &mut Vec<(Interval, char)>) {
    match node {
        BVHNode::Leaf { bounds, object } => out.push((*bounds, *object)),
        BVHNode::Interior { left, right, .. } => {
            leaves(left, out);
            leaves(right, out);
        }
    }
}

fn depth(node: &BVHNode<Interval, char>) -> usize {
    match node {
        BVHNode::Leaf { .. } => 1,
        BVHNode::Interior { left, right, .. } => 1 + depth(left).max(depth(right)),
    }
}

fn check_unions(node: &BVHNode<Interval, char>) {
    if let BVHNode::Interior { bounds, left, right } = node {
        assert_eq!(*bounds, union(left.get_bounds(), right.get_bounds()));
        check_unions(left);
        check_unions(right);
    }
}

#[test]
fn single_object_is_a_leaf() {
    let node = BVHNode::build(vec![((1, 3), 'a')], &union);
    match node {
        BVHNode::Leaf { bounds, object } => {
            assert_eq!(bounds, (1, 3));
            assert_eq!(object, 'a');
        }
        BVHNode::Interior { .. } => panic!("one object must make a leaf"),
    }
}

#[test]
fn build_keeps_each_object_once_in_order() {
    let input = vec![((0, 1), 'a'), ((2, 5), 'b'), ((3, 4), 'c'), ((6, 9), 'd'), ((-2, 0), 'e')];
    let node = BVHNode::build(input.clone(), &union);
    let mut out = Vec::new();
    leaves(&node, &mut out);
    assert_eq!(out, input);
    assert_eq!(node.get_bounds(), (-2, 9));
    check_unions(&node);
    assert_eq!(depth(&node), 4);
}

#[test]
fn build_splits_first_half_left() {
    let input = vec![((0, 1), 'a'), ((1, 2), 'b'), ((2, 3), 'c')];
    let node = BVHNode::build(input, &union);
    match node {
        BVHNode::Interior { bounds, left, right } => {
            assert_eq!(bounds, (0, 3));
            assert!(matches!(*left, BVHNode::Leaf { object: 'a', .. }));
            assert_eq!(right.get_bounds(), (1, 3));
        }
        BVHNode::Leaf { .. } => panic!("three objects must make an interior node"),
    }
}

#[test]
fn build_depth_is_logarithmic() {
    for n in 1..70usize {
        let input: Vec<(Interval, char)> = (0..n).map(|i| ((i as i64, i as i64 + 1), 'x')).collect();
        let node = BVHNode::build(input, &union);
        let mut levels = 1;
        let mut m = n;
        while m > 1 {
            m = (m + 1) / 2;
            levels += 1;
        }
        assert!(depth(&node) <= levels);
        let mut out = Vec::new();
        leaves(&node, &mut out);
        assert_eq!(out.len(), n);
    }
}
