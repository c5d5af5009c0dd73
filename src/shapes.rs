use vstd::prelude::*;
use crate::operation::{Operation, apply_spec, symbol_of};
use crate::tree::{BinaryNode, Node, NumNode, decimal, eval_spec, render_spec, span, tree_ok};

verus! {

/// The sum over `1 <= k' <= k` of `catalan(k' - 1) * catalan(n - k')`.
pub open spec fn catalan_partial(n: nat, k: nat) -> nat
    decreases n, k,
{
    if k == 0 || k > n {
        0
    } else {
        let a: nat = if k - 1 == 0 { 1 } else { catalan_partial((k - 1) as nat, (k - 1) as nat) };
        let b: nat = if n - k == 0 { 1 } else { catalan_partial((n - k) as nat, (n - k) as nat) };
        catalan_partial(n, (k - 1) as nat) + a * b
    }
}

/// The Catalan numbers: `catalan(0) == 1` and
/// `catalan(n) == sum over 0 <= i < n of catalan(i) * catalan(n - 1 - i)`.
pub open spec fn catalan(n: nat) -> nat {
    if n == 0 {
        1
    } else {
        catalan_partial(n, n)
    }
}

proof fn lemma_catalan_step(n: nat, k: nat)
    requires
        1 <= k <= n,
    ensures
        catalan_partial(n, k) == catalan_partial(n, (k - 1) as nat) + catalan((k - 1) as nat) * catalan((n - k) as nat),
{
}

/// The bare shape of a full binary tree.
pub enum Shape {
    Leaf,
    Join(Box<Shape>, Box<Shape>),
}

/// The number of leaves of a shape.
pub open spec fn leaves(s: Shape) -> nat
    decreases s,
{
    match s {
        Shape::Leaf => 1,
        Shape::Join(a, b) => leaves(*a) + leaves(*b),
    }
}

/// The shape of the tree rooted at `id`.
pub open spec fn to_shape(nodes: Seq<Node>, id: int) -> Shape
    decreases id,
{
    if 0 <= id < nodes.len() {
        match nodes[id] {
            Node::Num(n) => Shape::Leaf,
            Node::Binary(b) => if 0 <= b.left < id && 0 <= b.right < id {
                Shape::Join(Box::new(to_shape(nodes, b.left as int)), Box::new(to_shape(nodes, b.right as int)))
            } else {
                Shape::Leaf
            },
        }
    } else {
        Shape::Leaf
    }
}

pub proof fn lemma_leaves_positive(s: Shape)
    ensures
        leaves(s) >= 1,
    decreases s,
{
    if let Shape::Join(a, b) = s {
        lemma_leaves_positive(*a);
        lemma_leaves_positive(*b);
    }
}

/// The shapes of the listed roots.
pub open spec fn shapes_of(nodes: Seq<Node>, roots: Seq<usize>) -> Seq<Shape> {
    roots.map_values(|r: usize| to_shape(nodes, r as int))
}

/// Every shape with `n` leaves is among `shapes`.
pub open spec fn has_all_shapes(shapes: Seq<Shape>, n: nat) -> bool {
    forall|s: Shape| #[trigger] leaves(s) == n ==> shapes.contains(s)
}

/// The value of a shape whose leaves read the operand slots from `l` on.
pub open spec fn shape_eval(s: Shape, l: int, ints: Seq<i64>, ops: Seq<Operation>) -> Option<int>
    decreases s,
{
    match s {
        Shape::Leaf => Some(ints[l] as int),
        Shape::Join(a, b) => {
            let m = l + leaves(*a);
            match (shape_eval(*a, l, ints, ops), shape_eval(*b, m, ints, ops)) {
                (Some(x), Some(y)) => apply_spec(ops[m - 1], x, y),
                _ => None,
            }
        },
    }
}

/// The text of a shape whose leaves read the operand slots from `l` on.
pub open spec fn shape_render(s: Shape, l: int, ints: Seq<i64>, ops: Seq<Operation>) -> Seq<char>
    decreases s,
{
    match s {
        Shape::Leaf => decimal(ints[l] as nat),
        Shape::Join(a, b) => {
            let m = l + leaves(*a);
            seq!['('] + shape_render(*a, l, ints, ops) + seq![symbol_of(ops[m - 1])] + shape_render(*b, m, ints, ops) + seq![')']
        },
    }
}

/// A correct tree is determined by its shape and its first operand slot.
pub proof fn lemma_shape_determines(nodes: Seq<Node>, id: int, ints: Seq<i64>, ops: Seq<Operation>)
    requires
        tree_ok(nodes, id),
    ensures
        leaves(to_shape(nodes, id)) == span(nodes, id).1 - span(nodes, id).0,
        eval_spec(nodes, id, ints, ops) == shape_eval(to_shape(nodes, id), span(nodes, id).0, ints, ops),
        render_spec(nodes, id, ints, ops) == shape_render(to_shape(nodes, id), span(nodes, id).0, ints, ops),
    decreases id,
{
    if let Node::Binary(b) = nodes[id] {
        lemma_shape_determines(nodes, b.left as int, ints, ops);
        lemma_shape_determines(nodes, b.right as int, ints, ops);
    }
}

/// The leaves of the left part of a shape (0 for a leaf).
pub open spec fn split_of(s: Shape) -> nat {
    match s {
        Shape::Leaf => 0,
        Shape::Join(a, b) => leaves(*a),
    }
}

proof fn lemma_push_keeps(s: Seq<Shape>, x: Shape)
    ensures
        s.push(x).contains(x),
        forall|y: Shape| s.contains(y) ==> #[trigger] s.push(x).contains(y),
{
    assert(s.push(x)[s.len() as int] == x);
    assert forall|y: Shape| s.contains(y) implies #[trigger] s.push(x).contains(y) by {
        let j = choose|j: int| 0 <= j < s.len() && s[j] == y;
        assert(s.push(x)[j] == y);
    }
}

/// The position `i` of the arena holds the leaf of operand slot `i`.
pub open spec fn leaf_at(nodes: Seq<Node>, i: int) -> bool {
    nodes[i] == Node::Num(NumNode { value: i as usize })
}

/// `b` is `a` with nodes appended.
pub open spec fn extends(a: Seq<Node>, b: Seq<Node>) -> bool {
    a.len() <= b.len() && forall|i: int| 0 <= i < a.len() ==> b[i] == a[i]
}

/// Every listed root is a correct tree over the operand range `[left, right)`.
pub open spec fn roots_over(nodes: Seq<Node>, roots: Seq<usize>, left: int, right: int) -> bool {
    forall|j: int| 0 <= j < roots.len() ==> tree_ok(nodes, #[trigger] roots[j] as int) && span(nodes, roots[j] as int) == (left, right)
}

pub proof fn lemma_extend(a: Seq<Node>, b: Seq<Node>, id: int)
    requires
        extends(a, b),
        tree_ok(a, id),
    ensures
        tree_ok(b, id),
        span(b, id) == span(a, id),
        to_shape(b, id) == to_shape(a, id),
    decreases id,
{
    if let Node::Binary(n) = a[id] {
        lemma_extend(a, b, n.left as int);
        lemma_extend(a, b, n.right as int);
    }
}

pub proof fn lemma_extend_roots(a: Seq<Node>, b: Seq<Node>, roots: Seq<usize>, left: int, right: int)
    requires
        extends(a, b),
        roots_over(a, roots, left, right),
    ensures
        roots_over(b, roots, left, right),
        shapes_of(b, roots) == shapes_of(a, roots),
{
    assert forall|j: int| 0 <= j < roots.len() implies tree_ok(b, #[trigger] roots[j] as int) && span(b, roots[j] as int) == (left, right) by {
        lemma_extend(a, b, roots[j] as int);
    }
    assert forall|j: int| 0 <= j < roots.len() implies #[trigger] shapes_of(b, roots)[j] == shapes_of(a, roots)[j] by {
        lemma_extend(a, b, roots[j] as int);
    }
    assert(shapes_of(b, roots) =~= shapes_of(a, roots));
}

/// Builds every full binary tree over the operands `[left, right)`, appending
/// the new inner nodes to the arena, and returns their roots. Leaves are the
/// arena's first nodes; the split before operand `i` uses operator slot `i - 1`.
pub fn calculate_parenthesisations(left: usize, right: usize, nodes: &mut Vec<Node>) -> (r: Vec<usize>)
    requires
        left < right <= old(nodes)@.len(),
        forall|i: int| 0 <= i < right ==> leaf_at(old(nodes)@, i),
    ensures
        extends(old(nodes)@, final(nodes)@),
        r@.len() == catalan((right - left - 1) as nat),
        forall|j: int| 0 <= j < r@.len() ==> r@[j] < final(nodes)@.len(),
        roots_over(final(nodes)@, r@, left as int, right as int),
        has_all_shapes(shapes_of(final(nodes)@, r@), (right - left) as nat),
    decreases right - left,
{
    if left + 1 == right {
        let r = vec![left];
        proof {
            assert(leaf_at(nodes@, left as int));
            assert(tree_ok(nodes@, r@[0] as int));
            assert(shapes_of(nodes@, r@)[0] == Shape::Leaf);
            assert forall|t: Shape| #[trigger] leaves(t) == 1 implies shapes_of(nodes@, r@).contains(t) by {
                if let Shape::Join(a, b) = t {
                    lemma_leaves_positive(*a);
                    lemma_leaves_positive(*b);
                }
                assert(shapes_of(nodes@, r@)[0] == t);
            }
        }
        return r;
    }
    if left + 2 == right {
        let ghost before = nodes@;
        let id = nodes.len();
        nodes.push(Node::Binary(BinaryNode::new(left, left + 1, left)));
        let r = vec![id];
        proof {
            assert(leaf_at(before, left as int));
            assert(leaf_at(before, left + 1));
            assert(nodes@[left as int] == before[left as int]);
            assert(nodes@[left + 1] == before[left + 1]);
            assert(tree_ok(nodes@, left as int));
            assert(tree_ok(nodes@, left + 1));
            assert(tree_ok(nodes@, id as int));
            assert(catalan(1) == 1) by {
                lemma_catalan_step(1, 1);
            }
            let two = Shape::Join(Box::new(Shape::Leaf), Box::new(Shape::Leaf));
            assert(to_shape(nodes@, left as int) == Shape::Leaf);
            assert(to_shape(nodes@, left + 1) == Shape::Leaf);
            assert(to_shape(nodes@, id as int) == two);
            assert(shapes_of(nodes@, r@)[0] == two);
            assert forall|t: Shape| #[trigger] leaves(t) == 2 implies shapes_of(nodes@, r@).contains(t) by {
                match t {
                    Shape::Leaf => {},
                    Shape::Join(a, b) => {
                        lemma_leaves_positive(*a);
                        lemma_leaves_positive(*b);
                        if let Shape::Join(c, d) = *a {
                            lemma_leaves_positive(*c);
                            lemma_leaves_positive(*d);
                        }
                        if let Shape::Join(c, d) = *b {
                            lemma_leaves_positive(*c);
                            lemma_leaves_positive(*d);
                        }
                        assert(t == two);
                    },
                }
                assert(shapes_of(nodes@, r@)[0] == t);
            }
        }
        return r;
    }
    let ghost n: nat = (right - left - 1) as nat;
    let ghost start = nodes@;
    let mut result: Vec<usize> = Vec::new();
    let mut i: usize = left + 1;
    proof {
        assert forall|t: Shape| #[trigger] leaves(t) == right - left && split_of(t) < i - left implies shapes_of(nodes@, result@).contains(t) by {
            if let Shape::Join(ta, tb) = t {
                lemma_leaves_positive(*ta);
            }
        }
    }
    while i < right
        invariant
            left + 1 <= i <= right,
            right <= start.len(),
            n == right - left - 1,
            forall|x: int| 0 <= x < right ==> leaf_at(start, x),
            extends(start, nodes@),
            result@.len() == catalan_partial(n, (i - left - 1) as nat),
            forall|j: int| 0 <= j < result@.len() ==> result@[j] < nodes@.len(),
            roots_over(nodes@, result@, left as int, right as int),
            forall|t: Shape| #[trigger] leaves(t) == right - left && split_of(t) < i - left ==> shapes_of(nodes@, result@).contains(t),
        decreases right - i,
    {
        let ghost before = nodes@;
        proof {
            assert forall|x: int| 0 <= x < right implies leaf_at(nodes@, x) by {
                assert(leaf_at(start, x));
            }
        }
        let left_combinations = calculate_parenthesisations(left, i, nodes);
        let ghost mid = nodes@;
        proof {
            assert forall|x: int| 0 <= x < right implies leaf_at(nodes@, x) by {
                assert(leaf_at(start, x));
            }
        }
        let right_combinations = calculate_parenthesisations(i, right, nodes);
        let ghost snap = nodes@;
        proof {
            lemma_extend_roots(mid, snap, left_combinations@, left as int, i as int);
            lemma_extend_roots(before, snap, result@, left as int, right as int);
        }
        let ghost lcs = shapes_of(snap, left_combinations@);
        let ghost rcs = shapes_of(snap, right_combinations@);
        let ghost done = shapes_of(snap, result@);
        let ghost base = result@.len();
        let mut a: usize = 0;
        while a < left_combinations.len()
            invariant
                left + 1 <= i < right,
                a <= left_combinations@.len(),
                extends(start, nodes@),
                extends(snap, nodes@),
                forall|j: int| 0 <= j < left_combinations@.len() ==> left_combinations@[j] < snap.len(),
                forall|j: int| 0 <= j < right_combinations@.len() ==> right_combinations@[j] < snap.len(),
                roots_over(snap, left_combinations@, left as int, i as int),
                roots_over(snap, right_combinations@, i as int, right as int),
                result@.len() == base + a * right_combinations@.len(),
                forall|j: int| 0 <= j < result@.len() ==> result@[j] < nodes@.len(),
                roots_over(nodes@, result@, left as int, right as int),
                lcs == shapes_of(snap, left_combinations@),
                rcs == shapes_of(snap, right_combinations@),
                forall|t: Shape| done.contains(t) ==> #[trigger] shapes_of(nodes@, result@).contains(t),
                forall|x: int, y: int| #![trigger lcs[x], rcs[y]] 0 <= x < a && 0 <= y < rcs.len() ==> shapes_of(nodes@, result@).contains(
                    Shape::Join(Box::new(lcs[x]), Box::new(rcs[y]))),
            decreases left_combinations@.len() - a,
        {
            let mut b: usize = 0;
            while b < right_combinations.len()
                invariant
                    left + 1 <= i < right,
                    a < left_combinations@.len(),
                    b <= right_combinations@.len(),
                    extends(start, nodes@),
                    extends(snap, nodes@),
                    forall|j: int| 0 <= j < left_combinations@.len() ==> left_combinations@[j] < snap.len(),
                    forall|j: int| 0 <= j < right_combinations@.len() ==> right_combinations@[j] < snap.len(),
                    roots_over(snap, left_combinations@, left as int, i as int),
                    roots_over(snap, right_combinations@, i as int, right as int),
                    result@.len() == base + a * right_combinations@.len() + b,
                    forall|j: int| 0 <= j < result@.len() ==> result@[j] < nodes@.len(),
                    roots_over(nodes@, result@, left as int, right as int),
                    lcs == shapes_of(snap, left_combinations@),
                    rcs == shapes_of(snap, right_combinations@),
                    forall|t: Shape| done.contains(t) ==> #[trigger] shapes_of(nodes@, result@).contains(t),
                    forall|x: int, y: int| #![trigger lcs[x], rcs[y]] 0 <= x < a && 0 <= y < rcs.len() ==> shapes_of(nodes@, result@).contains(
                        Shape::Join(Box::new(lcs[x]), Box::new(rcs[y]))),
                    forall|y: int| 0 <= y < b ==> shapes_of(nodes@, result@).contains(
                        Shape::Join(Box::new(lcs[a as int]), Box::new(#[trigger] rcs[y]))),
                decreases right_combinations@.len() - b,
            {
                let l = left_combinations[a];
                let r = right_combinations[b];
                let ghost pre = nodes@;
                let id = nodes.len();
                nodes.push(Node::Binary(BinaryNode::new(l, r, i - 1)));
                proof {
                    assert(tree_ok(snap, l as int));
                    assert(tree_ok(snap, r as int));
                    assert(extends(snap, nodes@));
                    lemma_extend(snap, nodes@, l as int);
                    lemma_extend(snap, nodes@, r as int);
                    assert(tree_ok(nodes@, id as int));
                    lemma_extend_roots(pre, nodes@, result@, left as int, right as int);
                    assert(to_shape(nodes@, id as int) == Shape::Join(Box::new(lcs[a as int]), Box::new(rcs[b as int])));
                }
                let ghost old_shapes = shapes_of(nodes@, result@);
                result.push(id);
                proof {
                    assert(shapes_of(nodes@, result@) =~= old_shapes.push(to_shape(nodes@, id as int)));
                    lemma_push_keeps(old_shapes, to_shape(nodes@, id as int));
                }
                b += 1;
            }
            proof {
                assert(base + a * right_combinations@.len() + right_combinations@.len() == base + (a + 1) * right_combinations@.len())
                    by (nonlinear_arith);
            }
            a += 1;
        }
        proof {
            assert forall|t: Shape| #[trigger] leaves(t) == right - left && split_of(t) < i + 1 - left implies shapes_of(nodes@, result@).contains(t) by {
                if split_of(t) == i - left {
                    if let Shape::Join(ta, tb) = t {
                        assert(leaves(*ta) == i - left);
                        assert(lcs.contains(*ta));
                        assert(leaves(*tb) == right - i);
                        assert(rcs.contains(*tb));
                        let x = choose|x: int| 0 <= x < lcs.len() && lcs[x] == *ta;
                        let y = choose|y: int| 0 <= y < rcs.len() && rcs[y] == *tb;
                        assert(shapes_of(nodes@, result@).contains(Shape::Join(Box::new(lcs[x]), Box::new(rcs[y]))));
                    }
                } else {
                    assert(done.contains(t));
                }
            }
            lemma_catalan_step(n, (i - left) as nat);
            assert(left_combinations@.len() * right_combinations@.len() == catalan((i - left - 1) as nat) * catalan((right - i - 1) as nat));
        }
        i += 1;
    }
    proof {
        assert forall|t: Shape| #[trigger] leaves(t) == right - left implies shapes_of(nodes@, result@).contains(t) by {
            if let Shape::Join(ta, tb) = t {
                lemma_leaves_positive(*tb);
            }
        }
    }
    result
}

/// The slots and the shapes of one expression size: `ints` are the operand
/// slots, `ops` the operator slots (each a position in an operator list),
/// `nodes` the arena, and `alternatives` the roots of every shape.
pub struct Composed {
    pub ints: Vec<i64>,
    pub ops: Vec<usize>,
    pub nodes: Vec<Node>,
    pub alternatives: Vec<usize>,
}

/// Allocates the slots of an expression of `size` operands and builds all its shapes.
pub fn make_options(size: usize) -> (c: Composed)
    requires
        size >= 1,
    ensures
        c.ints@.len() == size,
        forall|k: int| 0 <= k < size ==> c.ints@[k] == 1,
        c.ops@.len() == size - 1,
        forall|k: int| 0 <= k < size - 1 ==> c.ops@[k] == 0,
        c.alternatives@.len() == catalan((size - 1) as nat),
        forall|j: int| 0 <= j < c.alternatives@.len() ==> c.alternatives@[j] < c.nodes@.len(),
        roots_over(c.nodes@, c.alternatives@, 0, size as int),
        has_all_shapes(shapes_of(c.nodes@, c.alternatives@), size as nat),
{
    let mut ints: Vec<i64> = Vec::new();
    let mut nodes: Vec<Node> = Vec::new();
    let mut k: usize = 0;
    while k < size
        invariant
            k <= size,
            ints@.len() == k,
            nodes@.len() == k,
            forall|x: int| 0 <= x < k ==> ints@[x] == 1,
            forall|x: int| 0 <= x < k ==> leaf_at(nodes@, x),
        decreases size - k,
    {
        let ghost pre = nodes@;
        ints.push(1);
        nodes.push(Node::Num(NumNode::new(k)));
        proof {
            assert forall|x: int| 0 <= x <= k implies leaf_at(nodes@, x) by {
                if x < k {
                    assert(leaf_at(pre, x));
                }
            }
        }
        k += 1;
    }
    let mut ops: Vec<usize> = Vec::new();
    let mut o: usize = 0;
    while o < size - 1
        invariant
            o <= size - 1,
            ops@.len() == o,
            forall|x: int| 0 <= x < o ==> ops@[x] == 0,
        decreases size - 1 - o,
    {
        ops.push(0);
        o += 1;
    }
    let alternatives = calculate_parenthesisations(0, size, &mut nodes);
    Composed { ints, ops, nodes, alternatives }
}

} // verus!
