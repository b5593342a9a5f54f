//! The structural skeleton of a weighted expression tree: every node kind
//! with its plain-value payload (coordinates, registry indexes, and the
//! weight carried as its bit pattern), the reachable-node count, and the
//! preorder walk that node selection uses.  Evaluation reads the payloads
//! as floats and stays outside the library.

use vstd::prelude::*;

verus! {

/// One tree node: a leaf over the data, a z-scored leaf, a named constant,
/// or an operator applied to weighted children.
pub enum NodeShape {
    DataValue(usize, usize),
    StdDev(usize, usize),
    Constant(usize),
    Unary(usize, Box<WeightedShape>),
    Binary(usize, Box<WeightedShape>, Box<WeightedShape>),
}

/// A node together with the bit pattern of the weight that scales its
/// output.
pub struct WeightedShape {
    pub weight_bits: u32,
    pub node: NodeShape,
}

/// The number of nodes reachable from this node, itself included.
pub open spec fn reachable_count(w: WeightedShape) -> nat
    decreases w,
{
    match w.node {
        NodeShape::DataValue(_, _) => 1,
        NodeShape::StdDev(_, _) => 1,
        NodeShape::Constant(_) => 1,
        NodeShape::Unary(_, c) => 1 + reachable_count(*c),
        NodeShape::Binary(_, a, b) => 1 + reachable_count(*a) + reachable_count(*b),
    }
}

/// The preorder walk: the node itself, then the left subtree, then the
/// deferred right subtree.  Node selection by index walks this order.
pub open spec fn preorder(w: WeightedShape) -> Seq<WeightedShape>
    decreases w,
{
    match w.node {
        NodeShape::DataValue(_, _) => seq![w],
        NodeShape::StdDev(_, _) => seq![w],
        NodeShape::Constant(_) => seq![w],
        NodeShape::Unary(_, c) => seq![w] + preorder(*c),
        NodeShape::Binary(_, a, b) => seq![w] + preorder(*a) + preorder(*b),
    }
}

/// The walk visits every reachable node exactly once, the node itself
/// first.
pub proof fn lemma_preorder_len(w: WeightedShape)
    ensures
        preorder(w).len() == reachable_count(w),
        preorder(w)[0] == w,
    decreases w,
{
    match w.node {
        NodeShape::DataValue(_, _) => {},
        NodeShape::StdDev(_, _) => {},
        NodeShape::Constant(_) => {},
        NodeShape::Unary(_, c) => {
            lemma_preorder_len(*c);
        },
        NodeShape::Binary(_, a, b) => {
            lemma_preorder_len(*a);
            lemma_preorder_len(*b);
        },
    }
}

/// The number of nodes reachable from this node: what the tree's cached
/// node count must always equal.
pub fn node_count(w: &WeightedShape) -> (r: usize)
    requires
        reachable_count(*w) <= usize::MAX,
    ensures
        r == reachable_count(*w),
    decreases *w,
{
    match &w.node {
        NodeShape::DataValue(_, _) => 1,
        NodeShape::StdDev(_, _) => 1,
        NodeShape::Constant(_) => 1,
        NodeShape::Unary(_, c) => 1 + node_count(c),
        NodeShape::Binary(_, a, b) => {
            let ca = node_count(a);
            let cb = node_count(b);
            1 + ca + cb
        },
    }
}

/// The node at an index of the preorder walk, taken by ownership: index 0
/// is the node itself, indexes continue through the left subtree and then
/// the deferred right subtree.
pub fn take_node(w: WeightedShape, id: usize) -> (r: WeightedShape)
    requires
        id < reachable_count(w),
        reachable_count(w) <= usize::MAX,
    ensures
        r == preorder(w)[id as int],
    decreases w,
{
    proof {
        lemma_preorder_len(w);
    }
    let ghost w0 = w;
    if id == 0 {
        return w;
    }
    let WeightedShape { weight_bits, node } = w;
    match node {
        NodeShape::Unary(op, c) => {
            proof {
                lemma_preorder_len(*c);
                assert(preorder(w0)[id as int] == preorder(*c)[id - 1]);
            }
            take_node(*c, id - 1)
        },
        NodeShape::Binary(op, a, b) => {
            let ca = node_count(&a);
            if id - 1 < ca {
                proof {
                    lemma_preorder_len(*a);
                    assert(preorder(w0)[id as int] == (seq![w0] + preorder(*a))[id as int]);
                    assert(preorder(w0)[id as int] == preorder(*a)[id - 1]);
                }
                take_node(*a, id - 1)
            } else {
                proof {
                    lemma_preorder_len(*a);
                    lemma_preorder_len(*b);
                    assert(preorder(w0)[id as int] == preorder(*b)[id - 1 - ca]);
                }
                take_node(*b, id - 1 - ca)
            }
        },
        leaf => {
            proof {
                assert(false);
            }
            WeightedShape { weight_bits, node: leaf }
        },
    }
}

} // verus!
