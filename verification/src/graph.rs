//! The mathematical model of an expression graph.
//!
//! A graph is a sequence of nodes. A node names its operands by their
//! positions in the sequence, and every operand stands before the node that
//! uses it, so the graph has no cycle.

use vstd::prelude::*;

verus! {

/// The operator that made a node from its operands.
#[derive(Clone, Copy, PartialEq, Eq, Structural, Debug, Hash)]
pub enum Op {
    /// The sum of two operands.
    Add,
    /// The product of two operands.
    Mul,
    /// The first operand raised to the second, which is taken as a constant.
    Pow,
    /// The larger of the operand and zero.
    Relu,
}

/// One node of a graph: a literal, or an operator applied to earlier nodes.
pub struct Node {
    /// The bit pattern of the literal's value; `None` on an operator node,
    /// whose value follows from its operands.
    pub data: Option<u64>,
    /// The operator; `None` on a literal.
    pub op: Option<Op>,
    /// The positions of the operands, in order.
    pub operands: Seq<int>,
}

/// The bit pattern of the double -1.0.
pub const MINUS_ONE: u64 = 0xbff0_0000_0000_0000;

/// The bit pattern of the double 0.0.
pub const ZERO: u64 = 0;

/// The number of operands that an operator takes.
pub open spec fn arity(op: Op) -> nat {
    match op {
        Op::Add => 2,
        Op::Mul => 2,
        Op::Pow => 2,
        Op::Relu => 1,
    }
}

/// A literal node.
pub open spec fn literal(data: u64) -> Node {
    Node { data: Some(data), op: None, operands: Seq::empty() }
}

/// An operator node.
pub open spec fn applied(op: Op, operands: Seq<int>) -> Node {
    Node { data: None, op: Some(op), operands }
}

/// Node `i` of `g` is sound: its operands stand before it, a literal has a
/// value and no operand, an operator node has no value of its own and as
/// many operands as its operator takes, and the exponent of a power is a
/// literal.
pub open spec fn node_ok(g: Seq<Node>, i: int) -> bool {
    let n = g[i];
    &&& forall|k: int| 0 <= k < n.operands.len() ==> 0 <= #[trigger] n.operands[k] < i
    &&& match n.op {
        None => n.data is Some && n.operands.len() == 0,
        Some(op) => n.data is None && n.operands.len() == arity(op),
    }
    &&& n.op == Some(Op::Pow) ==> g[n.operands[1]].op is None
}

/// Every node of `g` is sound.
pub open spec fn well_formed(g: Seq<Node>) -> bool {
    forall|i: int| 0 <= i < g.len() ==> #[trigger] node_ok(g, i)
}

/// `g` with a literal appended.
pub open spec fn with_literal(g: Seq<Node>, data: u64) -> Seq<Node> {
    g.push(literal(data))
}

/// `g` with an operator node appended.
pub open spec fn with_op(g: Seq<Node>, op: Op, operands: Seq<int>) -> Seq<Node> {
    g.push(applied(op, operands))
}

/// `g` with `a + b` appended.
pub open spec fn with_add(g: Seq<Node>, a: int, b: int) -> Seq<Node> {
    with_op(g, Op::Add, seq![a, b])
}

/// `g` with `a * b` appended.
pub open spec fn with_mul(g: Seq<Node>, a: int, b: int) -> Seq<Node> {
    with_op(g, Op::Mul, seq![a, b])
}

/// `g` with the rectified `a` appended.
pub open spec fn with_relu(g: Seq<Node>, a: int) -> Seq<Node> {
    with_op(g, Op::Relu, seq![a])
}

/// `g` with the literal `exponent` and then `a` raised to it appended.
pub open spec fn with_pow(g: Seq<Node>, a: int, exponent: u64) -> Seq<Node> {
    with_op(with_literal(g, exponent), Op::Pow, seq![a, g.len() as int])
}

/// `g` with `-a` appended: the literal -1.0, then its product with `a`.
pub open spec fn with_neg(g: Seq<Node>, a: int) -> Seq<Node> {
    with_mul(with_literal(g, MINUS_ONE), a, g.len() as int)
}

/// `g` with `a - b` appended: `-b`, then its sum with `a`.
pub open spec fn with_sub(g: Seq<Node>, a: int, b: int) -> Seq<Node> {
    with_add(with_neg(g, b), a, g.len() as int + 1)
}

/// `g` with `a / b` appended: `b` raised to -1.0, then its product with `a`.
pub open spec fn with_div(g: Seq<Node>, a: int, b: int) -> Seq<Node> {
    with_mul(with_pow(g, b, MINUS_ONE), a, g.len() as int + 1)
}

/// `g` with the sum of the first `count` of `values` appended, added up from
/// left to right; a single value is its own sum and adds no node.
pub open spec fn with_sum(g: Seq<Node>, values: Seq<int>, count: int) -> Seq<Node>
    decreases count,
{
    if count <= 1 {
        g
    } else {
        with_add(with_sum(g, values, count - 1), sum_node(g, values, count - 1), values[count - 1])
    }
}

/// The node that holds the sum of the first `count` of `values` in
/// `with_sum(g, values, count)`.
pub open spec fn sum_node(g: Seq<Node>, values: Seq<int>, count: int) -> int {
    if count <= 1 {
        values[0]
    } else {
        g.len() + count - 2
    }
}

/// The first `len` nodes of a well-formed graph are a well-formed graph.
pub proof fn lemma_take(g: Seq<Node>, len: int)
    requires
        well_formed(g),
        0 <= len <= g.len(),
    ensures
        well_formed(g.take(len)),
{
    let h = g.take(len);
    assert forall|i: int| 0 <= i < h.len() implies #[trigger] node_ok(h, i) by {
        assert(node_ok(g, i));
        if g[i].op == Some(Op::Pow) {
            assert(0 <= g[i].operands[1] < i);
        }
    }
}

/// Appending a literal keeps a graph well formed.
pub proof fn lemma_with_literal(g: Seq<Node>, data: u64)
    requires
        well_formed(g),
    ensures
        well_formed(with_literal(g, data)),
{
    let h = with_literal(g, data);
    assert forall|i: int| 0 <= i < h.len() implies #[trigger] node_ok(h, i) by {
        if i < g.len() {
            assert(node_ok(g, i));
            if g[i].op == Some(Op::Pow) {
                assert(0 <= g[i].operands[1] < i);
            }
        }
    }
}

/// Appending an operator node keeps a graph well formed if the operands are
/// nodes of the graph, as many as the operator takes, and the exponent of a
/// power is a literal.
pub proof fn lemma_with_op(g: Seq<Node>, op: Op, operands: Seq<int>)
    requires
        well_formed(g),
        operands.len() == arity(op),
        forall|k: int| 0 <= k < operands.len() ==> 0 <= #[trigger] operands[k] < g.len(),
        op == Op::Pow ==> g[operands[1]].op is None,
    ensures
        well_formed(with_op(g, op, operands)),
{
    let h = with_op(g, op, operands);
    assert forall|i: int| 0 <= i < h.len() implies #[trigger] node_ok(h, i) by {
        if i < g.len() {
            assert(node_ok(g, i));
            if g[i].op == Some(Op::Pow) {
                assert(0 <= g[i].operands[1] < i);
            }
        } else {
            if op == Op::Pow {
                assert(0 <= operands[1] < g.len());
            }
        }
    }
}

} // verus!
