use vstd::prelude::*;

verus! {

/// A bounding-volume hierarchy over scene objects: a leaf holds one object
/// and its box; an interior node holds the box around both its subtrees.
pub enum BVHNode<B, O> {
    Leaf { bounds: B, object: O },
    Interior { bounds: B, left: Box<BVHNode<B, O>>, right: Box<BVHNode<B, O>> },
}

/// Levels of a tree over `n` objects that halves them at each level,
/// rounding up: 1 + the base-2 logarithm of `n`, rounded up.
pub open spec fn levels(n: nat) -> nat
    decreases n,
{
    if n <= 1 {
        1
    } else {
        1 + levels(((n + 1) / 2) as nat)
    }
}

/// More objects never need fewer levels.
proof fn lemma_levels_monotone(a: nat, b: nat)
    requires
        a <= b,
    ensures
        levels(a) <= levels(b),
    decreases b,
{
    if a > 1 {
        lemma_levels_monotone(((a + 1) / 2) as nat, ((b + 1) / 2) as nat);
    } else {
        lemma_levels_positive(b);
    }
}

proof fn lemma_levels_positive(n: nat)
    ensures
        levels(n) >= 1,
    decreases n,
{
    if n > 1 {
        lemma_levels_positive(((n + 1) / 2) as nat);
    }
}

impl<B, O> BVHNode<B, O> {
    /// The box stored at this node.
    pub open spec fn bounds(self) -> B {
        match self {
            BVHNode::Leaf { bounds, .. } => bounds,
            BVHNode::Interior { bounds, .. } => bounds,
        }
    }

    /// The objects of the leaves, left to right.
    pub open spec fn objects(self) -> Seq<O>
        decreases self,
    {
        match self {
            BVHNode::Leaf { object, .. } => seq![object],
            BVHNode::Interior { left, right, .. } => left.objects() + right.objects(),
        }
    }

    /// The boxes of the leaves, left to right.
    pub open spec fn leaf_bounds(self) -> Seq<B>
        decreases self,
    {
        match self {
            BVHNode::Leaf { bounds, .. } => seq![bounds],
            BVHNode::Interior { left, right, .. } => left.leaf_bounds() + right.leaf_bounds(),
        }
    }

    /// Every interior box is a box that `union` may give for its two
    /// children's boxes.
    pub open spec fn unions_hold<U: Fn(B, B) -> B>(self, union: U) -> bool
        decreases self,
    {
        match self {
            BVHNode::Leaf { .. } => true,
            BVHNode::Interior { bounds, left, right } => {
                &&& union.ensures((left.bounds(), right.bounds()), bounds)
                &&& left.unions_hold(union)
                &&& right.unions_hold(union)
            },
        }
    }

    /// Every interior node has the first half of its objects (rounded down)
    /// on the left.
    pub open spec fn split_at_middle(self) -> bool
        decreases self,
    {
        match self {
            BVHNode::Leaf { .. } => true,
            BVHNode::Interior { left, right, .. } => {
                &&& left.objects().len() == (left.objects().len() + right.objects().len()) / 2
                &&& left.split_at_middle()
                &&& right.split_at_middle()
            },
        }
    }

    /// Number of levels: 1 for a leaf.
    pub open spec fn depth(self) -> nat
        decreases self,
    {
        match self {
            BVHNode::Leaf { .. } => 1,
            BVHNode::Interior { left, right, .. } => 1 + if left.depth() >= right.depth() {
                left.depth()
            } else {
                right.depth()
            },
        }
    }
}

impl<B: Copy, O> BVHNode<B, O> {
    /// The box around everything below this node.
    pub fn get_bounds(&self) -> (b: B)
        ensures
            b == self.bounds(),
    {
        match self {
            BVHNode::Leaf { bounds, .. } => *bounds,
            BVHNode::Interior { bounds, .. } => *bounds,
        }
    }

    /// Builds the hierarchy over `objects`, each given with its box, in the
    /// order given (callers sort them along a split axis first): one object
    /// makes a leaf; more are split at the middle, the first half going left,
    /// and the node's box is `union` of its children's boxes. Each object
    /// lands in exactly one leaf, in its input order, and the tree is balanced:
    /// its depth grows with the logarithm of the number of objects.
    pub fn build<U: Fn(B, B) -> B>(objects: Vec<(B, O)>, union: &U) -> (node: BVHNode<B, O>)
        requires
            objects@.len() > 0,
            forall|a: B, b: B| #[trigger] union.requires((a, b)),
        ensures
            node.objects() == objects@.map_values(|p: (B, O)| p.1),
            node.leaf_bounds() == objects@.map_values(|p: (B, O)| p.0),
            node.unions_hold(*union),
            node.split_at_middle(),
            node.depth() <= levels(objects@.len()),
        decreases objects@.len(),
    {
        let mut objects = objects;
        if objects.len() == 1 {
            let ghost all = objects@;
            let (bounds, object) = objects.pop().unwrap();
            proof {
                assert(all.map_values(|p: (B, O)| p.1) =~= seq![object]);
                assert(all.map_values(|p: (B, O)| p.0) =~= seq![bounds]);
            }
            BVHNode::Leaf { bounds, object }
        } else {
            let ghost all = objects@;
            let mid = objects.len() / 2;
            let second = objects.split_off(mid);
            let left = Self::build(objects, union);
            let right = Self::build(second, union);
            let bounds = union(left.get_bounds(), right.get_bounds());
            proof {
                let n = all.len();
                lemma_levels_monotone(mid as nat, ((n + 1) / 2) as nat);
                lemma_levels_monotone((n - mid) as nat, ((n + 1) / 2) as nat);
                assert(all.map_values(|p: (B, O)| p.1) =~= all.subrange(0, mid as int).map_values(
                    |p: (B, O)| p.1,
                ) + all.subrange(mid as int, all.len() as int).map_values(|p: (B, O)| p.1));
                assert(all.map_values(|p: (B, O)| p.0) =~= all.subrange(0, mid as int).map_values(
                    |p: (B, O)| p.0,
                ) + all.subrange(mid as int, all.len() as int).map_values(|p: (B, O)| p.0));
            }
            BVHNode::Interior { bounds, left: Box::new(left), right: Box::new(right) }
        }
    }
}

} // verus!
