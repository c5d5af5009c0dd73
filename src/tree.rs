use vstd::prelude::*;
use crate::operation::{Operation, apply_spec, symbol_of};

verus! {

/// A leaf: reads the operand slot with this index.
#[derive(Clone, Copy, Debug)]
pub struct NumNode {
    pub value: usize,
}

/// An inner node: combines two earlier nodes of the arena with the operator
/// slot of index `operation`.
#[derive(Clone, Copy, Debug)]
pub struct BinaryNode {
    pub left: usize,
    pub right: usize,
    pub operation: usize,
}

/// A node of an expression arena. Children are referred to by their position
/// in the arena, so shapes share their subtrees.
#[derive(Clone, Copy, Debug)]
pub enum Node {
    Num(NumNode),
    Binary(BinaryNode),
}

impl NumNode {
    pub fn new(value: usize) -> (r: NumNode)
        ensures
            r.value == value,
    {
        NumNode { value }
    }
}

impl BinaryNode {
    pub fn new(l: usize, r: usize, o: usize) -> (res: BinaryNode)
        ensures
            res.left == l,
            res.right == r,
            res.operation == o,
    {
        BinaryNode { left: l, right: r, operation: o }
    }
}

/// The half-open range of operand slots that the tree rooted at `id` reads.
pub open spec fn span(nodes: Seq<Node>, id: int) -> (int, int)
    decreases id,
{
    if 0 <= id < nodes.len() {
        match nodes[id] {
            Node::Num(n) => (n.value as int, n.value + 1),
            Node::Binary(b) => if 0 <= b.left < id && 0 <= b.right < id {
                (span(nodes, b.left as int).0, span(nodes, b.right as int).1)
            } else {
                (0, 0)
            },
        }
    } else {
        (0, 0)
    }
}

/// The tree rooted at `id` is a full binary tree over consecutive operand
/// slots, and each inner node uses the operator slot just before the first
/// operand of its right subtree.
pub open spec fn tree_ok(nodes: Seq<Node>, id: int) -> bool
    decreases id,
{
    0 <= id < nodes.len() && match nodes[id] {
        Node::Num(n) => true,
        Node::Binary(b) => {
            &&& 0 <= b.left < id
            &&& 0 <= b.right < id
            &&& tree_ok(nodes, b.left as int)
            &&& tree_ok(nodes, b.right as int)
            &&& span(nodes, b.left as int).1 == span(nodes, b.right as int).0
            &&& b.operation == span(nodes, b.left as int).1 - 1
        },
    }
}

/// The value of the tree rooted at `id` for the given operand and operator
/// slots; `None` where some node divides by zero or leaves `i64`.
pub open spec fn eval_spec(nodes: Seq<Node>, id: int, ints: Seq<i64>, ops: Seq<Operation>) -> Option<int>
    decreases id,
{
    if 0 <= id < nodes.len() {
        match nodes[id] {
            Node::Num(n) => Some(ints[n.value as int] as int),
            Node::Binary(b) => if 0 <= b.left < id && 0 <= b.right < id {
                match (eval_spec(nodes, b.left as int, ints, ops), eval_spec(nodes, b.right as int, ints, ops)) {
                    (Some(l), Some(r)) => apply_spec(ops[b.operation as int], l, r),
                    _ => None,
                }
            } else {
                None
            },
        }
    } else {
        None
    }
}

/// Some node of the tree divides by a subtree whose value is zero.
pub open spec fn divides_by_zero(nodes: Seq<Node>, id: int, ints: Seq<i64>, ops: Seq<Operation>) -> bool
    decreases id,
{
    0 <= id < nodes.len() && match nodes[id] {
        Node::Num(n) => false,
        Node::Binary(b) => 0 <= b.left < id && 0 <= b.right < id && {
            ||| divides_by_zero(nodes, b.left as int, ints, ops)
            ||| divides_by_zero(nodes, b.right as int, ints, ops)
            ||| (ops[b.operation as int] == Operation::Div && eval_spec(nodes, b.right as int, ints, ops) == Some(0int))
        },
    }
}

pub open spec fn digit_char(d: nat) -> char {
    if d == 0 { '0' } else if d == 1 { '1' } else if d == 2 { '2' } else if d == 3 { '3' }
    else if d == 4 { '4' } else if d == 5 { '5' } else if d == 6 { '6' } else if d == 7 { '7' }
    else if d == 8 { '8' } else { '9' }
}

/// The decimal digits of a natural number, without leading zeros.
pub open spec fn decimal(n: nat) -> Seq<char>
    decreases n,
{
    if n < 10 {
        seq![digit_char(n)]
    } else {
        decimal(n / 10).push(digit_char(n % 10))
    }
}

/// The fully parenthesised text of the tree rooted at `id`: a leaf is its
/// operand in decimal, an inner node is `(<left><symbol><right>)`.
pub open spec fn render_spec(nodes: Seq<Node>, id: int, ints: Seq<i64>, ops: Seq<Operation>) -> Seq<char>
    decreases id,
{
    if 0 <= id < nodes.len() {
        match nodes[id] {
            Node::Num(n) => decimal(ints[n.value as int] as nat),
            Node::Binary(b) => if 0 <= b.left < id && 0 <= b.right < id {
                seq!['('] + render_spec(nodes, b.left as int, ints, ops) + seq![symbol_of(ops[b.operation as int])]
                    + render_spec(nodes, b.right as int, ints, ops) + seq![')']
            } else {
                Seq::empty()
            },
        }
    } else {
        Seq::empty()
    }
}

/// An evaluated expression never divides by zero.
pub proof fn lemma_defined_has_no_division_by_zero(nodes: Seq<Node>, id: int, ints: Seq<i64>, ops: Seq<Operation>)
    requires
        eval_spec(nodes, id, ints, ops) is Some,
    ensures
        !divides_by_zero(nodes, id, ints, ops),
    decreases id,
{
    if let Node::Binary(b) = nodes[id] {
        lemma_defined_has_no_division_by_zero(nodes, b.left as int, ints, ops);
        lemma_defined_has_no_division_by_zero(nodes, b.right as int, ints, ops);
    }
}

/// Slot bounds under which a tree can be evaluated.
pub open spec fn slots_fit(nodes: Seq<Node>, id: int, n_ints: int, n_ops: int) -> bool {
    tree_ok(nodes, id) && span(nodes, id).1 <= n_ints && span(nodes, id).1 - 1 <= n_ops
}

proof fn lemma_span_ordered(nodes: Seq<Node>, id: int)
    requires
        tree_ok(nodes, id),
    ensures
        0 <= span(nodes, id).0 < span(nodes, id).1,
    decreases id,
{
    if let Node::Binary(b) = nodes[id] {
        lemma_span_ordered(nodes, b.left as int);
        lemma_span_ordered(nodes, b.right as int);
    }
}

/// Evaluates the tree rooted at `id`.
pub fn eval(nodes: &Vec<Node>, id: usize, ints: &Vec<i64>, ops: &Vec<Operation>) -> (r: Option<i64>)
    requires
        slots_fit(nodes@, id as int, ints@.len() as int, ops@.len() as int),
    ensures
        r matches Some(v) ==> eval_spec(nodes@, id as int, ints@, ops@) == Some(v as int),
        r is None ==> eval_spec(nodes@, id as int, ints@, ops@) is None,
    decreases id,
{
    proof {
        lemma_span_ordered(nodes@, id as int);
    }
    match nodes[id] {
        Node::Num(n) => Some(ints[n.value]),
        Node::Binary(b) => {
            proof {
                lemma_span_ordered(nodes@, b.left as int);
                lemma_span_ordered(nodes@, b.right as int);
            }
            let l = eval(nodes, b.left, ints, ops);
            match l {
                None => None,
                Some(lv) => {
                    let r = eval(nodes, b.right, ints, ops);
                    match r {
                        None => None,
                        Some(rv) => ops[b.operation].apply(lv, rv),
                    }
                },
            }
        },
    }
}

fn digit_str(d: u64) -> (r: &'static str)
    requires
        d < 10,
    ensures
        r@ == seq![digit_char(d as nat)],
{
    proof {
        reveal_strlit("0"); reveal_strlit("1"); reveal_strlit("2"); reveal_strlit("3");
        reveal_strlit("4"); reveal_strlit("5"); reveal_strlit("6"); reveal_strlit("7");
        reveal_strlit("8"); reveal_strlit("9");
    }
    if d == 0 { "0" } else if d == 1 { "1" } else if d == 2 { "2" } else if d == 3 { "3" }
    else if d == 4 { "4" } else if d == 5 { "5" } else if d == 6 { "6" } else if d == 7 { "7" }
    else if d == 8 { "8" } else { "9" }
}

/// Appends the decimal digits of `n`.
fn push_decimal(out: &mut String, n: u64)
    ensures
        final(out)@ == old(out)@ + decimal(n as nat),
    decreases n,
{
    if n < 10 {
        out.append(digit_str(n));
    } else {
        push_decimal(out, n / 10);
        out.append(digit_str(n % 10));
        proof {
            assert(decimal(n as nat) == decimal((n / 10) as nat).push(digit_char((n % 10) as nat)));
        }
    }
}

/// Appends the text of the tree rooted at `id`.
fn push_render(out: &mut String, nodes: &Vec<Node>, id: usize, ints: &Vec<i64>, ops: &Vec<Operation>)
    requires
        slots_fit(nodes@, id as int, ints@.len() as int, ops@.len() as int),
        forall|k: int| 0 <= k < ints@.len() ==> ints@[k] >= 0,
    ensures
        final(out)@ == old(out)@ + render_spec(nodes@, id as int, ints@, ops@),
    decreases id,
{
    proof {
        lemma_span_ordered(nodes@, id as int);
        reveal_strlit("(");
        reveal_strlit(")");
    }
    match nodes[id] {
        Node::Num(n) => {
            let v = ints[n.value];
            push_decimal(out, v as u64);
        },
        Node::Binary(b) => {
            proof {
                lemma_span_ordered(nodes@, b.left as int);
                lemma_span_ordered(nodes@, b.right as int);
            }
            let ghost start = out@;
            out.append("(");
            push_render(out, nodes, b.left, ints, ops);
            out.append(ops[b.operation].symbol());
            push_render(out, nodes, b.right, ints, ops);
            out.append(")");
            proof {
                assert(out@ =~= start + render_spec(nodes@, id as int, ints@, ops@));
            }
        },
    }
}

/// The text of the tree rooted at `id`.
pub fn render(nodes: &Vec<Node>, id: usize, ints: &Vec<i64>, ops: &Vec<Operation>) -> (r: String)
    requires
        slots_fit(nodes@, id as int, ints@.len() as int, ops@.len() as int),
        forall|k: int| 0 <= k < ints@.len() ==> ints@[k] >= 0,
    ensures
        r@ == render_spec(nodes@, id as int, ints@, ops@),
{
    let mut out = String::new();
    push_render(&mut out, nodes, id, ints, ops);
    proof {
        assert(out@ =~= render_spec(nodes@, id as int, ints@, ops@));
    }
    out
}

} // verus!
