//! The tape on which expression graphs are recorded, and the operators that
//! record them.

use vstd::prelude::*;
use crate::graph::{Node, Op, MINUS_ONE};
use crate::graph::{applied, arity, literal, well_formed};
use crate::graph::{sum_node, with_add, with_div, with_literal, with_mul, with_neg, with_op};
use crate::graph::{with_pow, with_relu, with_sub, with_sum};
use crate::graph::{lemma_take, lemma_with_literal, lemma_with_op};
use crate::identity::{fresh_uuid, is_random_uuid};

verus! {

/// A handle to one node of a tape: the node's position on it.
///
/// Two handles are equal when they name the same position, whatever value
/// the nodes carry.
#[derive(Clone, Copy, PartialEq, Eq, Structural, Debug, Hash)]
pub struct Value {
    pub index: usize,
}

impl View for Value {
    type V = int;

    open spec fn view(&self) -> int {
        self.index as int
    }
}

/// The positions that a sequence of handles names.
pub open spec fn positions(values: Seq<Value>) -> Seq<int> {
    values.map_values(|v: Value| v@)
}

/// The record of one node.
pub struct ValueData {
    /// The bit pattern of a literal's value; `None` on an operator node.
    pub data: Option<u64>,
    /// The node's identity token, a random UUID.
    pub uuid: u128,
    /// The operands, in order.
    pub _prev: Vec<Value>,
    /// The operator; `None` on a literal.
    pub _op: Option<Op>,
}

impl View for ValueData {
    type V = Node;

    open spec fn view(&self) -> Node {
        Node { data: self.data, op: self._op, operands: positions(self._prev@) }
    }
}

impl ValueData {
    /// The record of a fresh literal.
    pub fn new(data: u64) -> (r: ValueData)
        ensures
            r@ == literal(data),
            is_random_uuid(r.uuid),
    {
        let r = ValueData { data: Some(data), uuid: fresh_uuid(), _prev: Vec::new(), _op: None };
        assert(r@.operands =~= Seq::empty());
        r
    }
}

/// An append-only store of nodes.
pub struct Tape {
    nodes: Vec<ValueData>,
}

impl View for Tape {
    type V = Seq<Node>;

    closed spec fn view(&self) -> Seq<Node> {
        self.nodes@.map_values(|d: ValueData| d@)
    }
}

impl Tape {
    /// The identity tokens of the nodes, in tape order.
    pub closed spec fn uuids(&self) -> Seq<u128> {
        self.nodes@.map_values(|d: ValueData| d.uuid)
    }

    /// The tape holds a well-formed graph, and every node has a token that
    /// is a random UUID.
    pub open spec fn wf(&self) -> bool {
        &&& well_formed(self@)
        &&& self.uuids().len() == self@.len()
        &&& forall|i: int| 0 <= i < self.uuids().len() ==> is_random_uuid(#[trigger] self.uuids()[i])
    }

    /// `v` names a node of this tape.
    pub open spec fn contains(&self, v: Value) -> bool {
        v@ < self@.len()
    }

    /// Every one of `values` names a node of this tape.
    pub open spec fn contains_all(&self, values: Seq<Value>) -> bool {
        forall|k: int| 0 <= k < values.len() ==> self.contains(#[trigger] values[k])
    }

    /// This tape is `old` with nodes appended: what `old` held is unchanged.
    pub open spec fn extends(&self, old: &Tape) -> bool {
        &&& old@.len() <= self@.len()
        &&& self@.take(old@.len() as int) == old@
        &&& self.uuids().take(old@.len() as int) == old.uuids()
    }

    /// An empty tape.
    pub fn new() -> (tape: Tape)
        ensures
            tape@ == Seq::<Node>::empty(),
            tape.wf(),
    {
        let tape = Tape { nodes: Vec::new() };
        assert(tape@ =~= Seq::<Node>::empty());
        tape
    }

    /// The number of nodes.
    pub fn len(&self) -> (n: usize)
        ensures
            n == self@.len(),
    {
        self.nodes.len()
    }

    /// Whether every one of `values` names a node of this tape.
    pub fn holds(&self, values: &Vec<Value>) -> (r: bool)
        ensures
            r == self.contains_all(values@),
    {
        let mut k: usize = 0;
        while k < values.len()
            invariant
                k <= values@.len(),
                forall|j: int| 0 <= j < k ==> self.contains(#[trigger] values@[j]),
            decreases values@.len() - k,
        {
            if values[k].index >= self.nodes.len() {
                return false;
            }
            k += 1;
        }
        true
    }

    /// The record of node `v`.
    pub fn get(&self, v: &Value) -> (d: &ValueData)
        requires
            self.contains(*v),
        ensures
            d@ == self@[v@],
            d.uuid == self.uuids()[v@],
    {
        &self.nodes[v.index]
    }

    /// Drops every node from position `len` on; a tape of no more than `len`
    /// nodes is left as it is. Handles to dropped nodes must not be used
    /// again.
    pub fn truncate(&mut self, len: usize)
        requires
            old(self).wf(),
        ensures
            final(self).wf(),
            old(self).extends(final(self)),
            final(self)@.len() == if len <= old(self)@.len() {
                len as nat
            } else {
                old(self)@.len()
            },
    {
        proof {
            if len <= self@.len() {
                lemma_take(self@, len as int);
            }
        }
        self.nodes.truncate(len);
        proof {
            let n = self@.len() as int;
            assert(self@ =~= old(self)@.take(n));
            assert(self.uuids() =~= old(self).uuids().take(n));
        }
    }

    /// Appends a record and hands out its handle.
    fn push(&mut self, d: ValueData) -> (v: Value)
        requires
            old(self).wf(),
            well_formed(old(self)@.push(d@)),
            is_random_uuid(d.uuid),
        ensures
            final(self).wf(),
            final(self)@ == old(self)@.push(d@),
            final(self).uuids() == old(self).uuids().push(d.uuid),
            final(self).extends(old(self)),
            v@ == old(self)@.len(),
    {
        let index = self.nodes.len();
        self.nodes.push(d);
        assert(self@ =~= old(self)@.push(d@));
        assert(self.uuids() =~= old(self).uuids().push(d.uuid));
        assert(self@.take(old(self)@.len() as int) =~= old(self)@);
        assert(self.uuids().take(old(self)@.len() as int) =~= old(self).uuids());
        Value { index }
    }
}

impl Tape {
    /// Appends the node that applies `op` to `operands`.
    fn record(&mut self, op: Op, operands: Vec<Value>) -> (out: Value)
        requires
            old(self).wf(),
            operands@.len() == arity(op),
            forall|k: int| 0 <= k < operands@.len() ==> old(self).contains(#[trigger] operands@[k]),
            op == Op::Pow ==> old(self)@[operands@[1]@].op is None,
        ensures
            final(self).wf(),
            final(self)@ == with_op(old(self)@, op, positions(operands@)),
            final(self).extends(old(self)),
            out@ == old(self)@.len(),
    {
        let d = ValueData { data: None, uuid: fresh_uuid(), _prev: operands, _op: Some(op) };
        proof {
            lemma_with_op(self@, op, positions(operands@));
        }
        self.push(d)
    }
}

impl Value {
    /// Records the literal whose value has the bit pattern `data`.
    pub fn from(tape: &mut Tape, data: u64) -> (out: Value)
        requires
            old(tape).wf(),
        ensures
            final(tape).wf(),
            final(tape)@ == with_literal(old(tape)@, data),
            final(tape).extends(old(tape)),
            out@ == old(tape)@.len(),
    {
        let d = ValueData::new(data);
        proof {
            lemma_with_literal(tape@, data);
        }
        tape.push(d)
    }

    /// Records the sum of `self` and `other`.
    pub fn add(&self, tape: &mut Tape, other: &Value) -> (out: Value)
        requires
            old(tape).wf(),
            old(tape).contains(*self),
            old(tape).contains(*other),
        ensures
            final(tape).wf(),
            final(tape)@ == with_add(old(tape)@, self@, other@),
            final(tape).extends(old(tape)),
            out@ == final(tape)@.len() - 1,
    {
        let operands = vec![*self, *other];
        assert(positions(operands@) =~= seq![self@, other@]);
        tape.record(Op::Add, operands)
    }

    /// Records the product of `self` and `other`.
    pub fn mul(&self, tape: &mut Tape, other: &Value) -> (out: Value)
        requires
            old(tape).wf(),
            old(tape).contains(*self),
            old(tape).contains(*other),
        ensures
            final(tape).wf(),
            final(tape)@ == with_mul(old(tape)@, self@, other@),
            final(tape).extends(old(tape)),
            out@ == final(tape)@.len() - 1,
    {
        let operands = vec![*self, *other];
        assert(positions(operands@) =~= seq![self@, other@]);
        tape.record(Op::Mul, operands)
    }

    /// Records `self` rectified: the larger of `self` and zero.
    pub fn relu(&self, tape: &mut Tape) -> (out: Value)
        requires
            old(tape).wf(),
            old(tape).contains(*self),
        ensures
            final(tape).wf(),
            final(tape)@ == with_relu(old(tape)@, self@),
            final(tape).extends(old(tape)),
            out@ == final(tape)@.len() - 1,
    {
        let operands = vec![*self];
        assert(positions(operands@) =~= seq![self@]);
        tape.record(Op::Relu, operands)
    }

    /// Records `self` raised to the constant whose bit pattern is `power`.
    ///
    /// The exponent becomes a literal of its own, the second operand of the
    /// new node; no gradient is ever handed to it.
    pub fn pow(&self, tape: &mut Tape, power: u64) -> (out: Value)
        requires
            old(tape).wf(),
            old(tape).contains(*self),
        ensures
            final(tape).wf(),
            final(tape)@ == with_pow(old(tape)@, self@, power),
            final(tape).extends(old(tape)),
            out@ == final(tape)@.len() - 1,
    {
        let exponent = Value::from(tape, power);
        let operands = vec![*self, exponent];
        assert(positions(operands@) =~= seq![self@, exponent@]);
        let ghost mid = *tape;
        let out = tape.record(Op::Pow, operands);
        proof {
            lemma_extends_trans(old(tape), &mid, tape);
        }
        out
    }

    /// Records `-self`: the product of `self` and the literal -1.0.
    pub fn neg(&self, tape: &mut Tape) -> (out: Value)
        requires
            old(tape).wf(),
            old(tape).contains(*self),
        ensures
            final(tape).wf(),
            final(tape)@ == with_neg(old(tape)@, self@),
            final(tape).extends(old(tape)),
            out@ == final(tape)@.len() - 1,
    {
        let minus_one = Value::from(tape, MINUS_ONE);
        let ghost mid = *tape;
        let out = self.mul(tape, &minus_one);
        proof {
            lemma_extends_trans(old(tape), &mid, tape);
        }
        out
    }

    /// Records `self - other`: the sum of `self` and `-other`.
    pub fn sub(&self, tape: &mut Tape, other: &Value) -> (out: Value)
        requires
            old(tape).wf(),
            old(tape).contains(*self),
            old(tape).contains(*other),
        ensures
            final(tape).wf(),
            final(tape)@ == with_sub(old(tape)@, self@, other@),
            final(tape).extends(old(tape)),
            out@ == final(tape)@.len() - 1,
    {
        let negated = other.neg(tape);
        let ghost mid = *tape;
        let out = self.add(tape, &negated);
        proof {
            lemma_extends_trans(old(tape), &mid, tape);
        }
        out
    }

    /// Records `self / other`: the product of `self` and `other` raised to
    /// -1.0.
    pub fn div(&self, tape: &mut Tape, other: &Value) -> (out: Value)
        requires
            old(tape).wf(),
            old(tape).contains(*self),
            old(tape).contains(*other),
        ensures
            final(tape).wf(),
            final(tape)@ == with_div(old(tape)@, self@, other@),
            final(tape).extends(old(tape)),
            out@ == final(tape)@.len() - 1,
    {
        let inverse = other.pow(tape, MINUS_ONE);
        let ghost mid = *tape;
        let out = self.mul(tape, &inverse);
        proof {
            lemma_extends_trans(old(tape), &mid, tape);
        }
        out
    }
}

impl Value {
    /// Records the sum of `values`, added up from left to right. The sum of
    /// a single value is that value, and nothing is recorded for it.
    pub fn sum(tape: &mut Tape, values: &Vec<Value>) -> (out: Value)
        requires
            old(tape).wf(),
            values@.len() >= 1,
            old(tape).contains_all(values@),
        ensures
            final(tape).wf(),
            final(tape)@ == with_sum(old(tape)@, positions(values@), values@.len() as int),
            final(tape).extends(old(tape)),
            out@ == sum_node(old(tape)@, positions(values@), values@.len() as int),
            final(tape).contains(out),
    {
        let ghost g = tape@;
        let ghost xs = positions(values@);
        let mut acc = values[0];
        let mut i: usize = 1;
        proof {
            lemma_extends_refl(tape);
        }
        while i < values.len()
            invariant
                1 <= i <= values@.len(),
                g == old(tape)@,
                xs == positions(values@),
                tape.wf(),
                tape.extends(old(tape)),
                tape@ == with_sum(g, xs, i as int),
                tape@.len() == g.len() + i - 1,
                acc@ == sum_node(g, xs, i as int),
                old(tape).contains_all(values@),
            decreases values@.len() - i,
        {
            let ghost mid = *tape;
            let v = values[i];
            assert(old(tape).contains(values@[i as int]));
            acc = acc.add(tape, &v);
            proof {
                lemma_extends_trans(old(tape), &mid, tape);
            }
            i += 1;
        }
        acc
    }
}

/// A tape extends itself.
pub proof fn lemma_extends_refl(a: &Tape)
    ensures
        a.extends(a),
{
    assert(a@.take(a@.len() as int) =~= a@);
    assert(a.uuids().take(a@.len() as int) =~= a.uuids());
}

/// A tape that extends one that extends `a` extends `a`.
pub proof fn lemma_extends_trans(a: &Tape, b: &Tape, c: &Tape)
    requires
        b.extends(a),
        c.extends(b),
    ensures
        c.extends(a),
{
    let n = a@.len() as int;
    let m = b@.len() as int;
    assert(c@.take(n) =~= c@.take(m).take(n));
    assert(c.uuids().take(n) =~= c.uuids().take(m).take(n));
}

} // verus!
