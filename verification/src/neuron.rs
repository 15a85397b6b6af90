//! A neuron: a weighted sum of its inputs plus a bias, rectified or not.

use vstd::prelude::*;
use crate::engine::{lemma_extends_refl, lemma_extends_trans, positions, Tape, Value};
use crate::graph::{literal, with_add, with_mul, with_relu, Node, ZERO};

verus! {

/// A neuron, with nodes named by their positions.
pub struct NeuronModel {
    /// The weights, one for each input.
    pub w: Seq<int>,
    /// The bias.
    pub b: int,
    /// Whether the output is rectified.
    pub nonlin: bool,
}

impl NeuronModel {
    /// The weights and the bias are among the first `len` nodes.
    pub open spec fn within(self, len: nat) -> bool {
        &&& 0 <= self.b < len
        &&& forall|i: int| 0 <= i < self.w.len() ==> 0 <= #[trigger] self.w[i] < len
    }

    /// The neuron's output on `inputs` inputs can be recorded among `nodes`
    /// nodes: its parameters are among them, and it has a weight and is
    /// given an input.
    pub open spec fn accepts(self, nodes: nat, inputs: nat) -> bool {
        &&& self.within(nodes)
        &&& self.w.len() >= 1
        &&& inputs >= 1
    }

    /// The neuron's parameters: the bias, then the weights.
    pub open spec fn parameters(self) -> Seq<int> {
        seq![self.b] + self.w
    }
}

/// The neuron whose `m` weights stand from position `base` on, followed by
/// its bias.
pub open spec fn neuron_at(base: int, m: int, nonlin: bool) -> NeuronModel {
    NeuronModel { w: Seq::new(m as nat, |i: int| base + i), b: base + m, nonlin }
}

/// `node` is a literal with a value that `draw` gave.
pub open spec fn drawn<F: Fn() -> u64>(node: Node, draw: F) -> bool {
    &&& node.op is None
    &&& node.operands.len() == 0
    &&& node.data is Some
    &&& call_ensures(draw, (), node.data->0)
}

/// In `g` the weights of `n` are literals that `draw` gave, and its bias is
/// the literal 0.0.
pub open spec fn fresh_neuron<F: Fn() -> u64>(g: Seq<Node>, n: NeuronModel, draw: F) -> bool {
    &&& g[n.b] == literal(ZERO)
    &&& forall|i: int| 0 <= i < n.w.len() ==> drawn(#[trigger] g[n.w[i]], draw)
}

/// The number of items that a count asks for: none if it is negative.
pub open spec fn width(n: i32) -> int {
    if n > 0 {
        n as int
    } else {
        0
    }
}

/// `g` with the products of the first `count` weights and inputs appended,
/// each product but the first followed by its sum with what came before.
pub open spec fn with_dot(g: Seq<Node>, w: Seq<int>, x: Seq<int>, count: int) -> Seq<Node>
    decreases count,
{
    if count <= 0 {
        g
    } else if count == 1 {
        with_mul(g, w[0], x[0])
    } else {
        let h = with_dot(g, w, x, count - 1);
        with_add(with_mul(h, w[count - 1], x[count - 1]), h.len() - 1, h.len() as int)
    }
}

/// The number of weights that meet an input.
pub open spec fn pairs(n: NeuronModel, x: Seq<int>) -> int {
    if n.w.len() < x.len() {
        n.w.len() as int
    } else {
        x.len() as int
    }
}

/// `g` with the output of neuron `n` on the inputs `x` appended: the
/// weighted sum of the inputs, then its sum with the bias, then, if the
/// neuron rectifies, that sum rectified.
pub open spec fn with_neuron(g: Seq<Node>, n: NeuronModel, x: Seq<int>) -> Seq<Node> {
    let s = with_dot(g, n.w, x, pairs(n, x));
    let t = with_add(s, s.len() - 1, n.b);
    if n.nonlin {
        with_relu(t, t.len() - 1)
    } else {
        t
    }
}

/// A neuron whose weights and bias are literals of a tape.
pub struct Neuron {
    w: Vec<Value>,
    b: Value,
    nonlin: bool,
}

impl View for Neuron {
    type V = NeuronModel;

    closed spec fn view(&self) -> NeuronModel {
        NeuronModel { w: positions(self.w@), b: self.b@, nonlin: self.nonlin }
    }
}

impl Neuron {
    /// Records a neuron of `nin` inputs: a literal for each weight, with the
    /// value that `draw` gives for it, and then the literal 0.0 for the bias.
    /// A negative `nin` counts as none.
    pub fn new<F: Fn() -> u64>(tape: &mut Tape, nin: i32, nonlin: bool, draw: &F) -> (r: Neuron)
        requires
            old(tape).wf(),
            call_requires(*draw, ()),
        ensures
            final(tape).wf(),
            final(tape).extends(old(tape)),
            final(tape)@.len() == old(tape)@.len() + width(nin) + 1,
            r@ == neuron_at(old(tape)@.len() as int, width(nin), nonlin),
            r@.within(final(tape)@.len()),
            fresh_neuron(final(tape)@, r@, *draw),
    {
        let ghost base = tape@.len() as int;
        let mut w: Vec<Value> = Vec::new();
        let mut i: i32 = 0;
        proof {
            lemma_extends_refl(tape);
        }
        while i < nin
            invariant
                call_requires(*draw, ()),
                base == old(tape)@.len(),
                0 <= i,
                i == width(i),
                i <= width(nin),
                tape.wf(),
                tape.extends(old(tape)),
                tape@.len() == base + i,
                w@.len() == i,
                forall|k: int| 0 <= k < i ==> (#[trigger] w@[k])@ == base + k,
                forall|k: int| 0 <= k < i ==> drawn(#[trigger] tape@[base + k], *draw),
            decreases nin - i,
        {
            let ghost mid = *tape;
            let data = draw();
            let v = Value::from(tape, data);
            w.push(v);
            proof {
                lemma_extends_trans(old(tape), &mid, tape);
                assert forall|k: int| 0 <= k < i + 1 implies drawn(#[trigger] tape@[base + k], *draw) by {
                    if k < i {
                        assert(tape@[base + k] == mid@[base + k]);
                    }
                }
            }
            i += 1;
        }
        let ghost mid = *tape;
        let b = Value::from(tape, ZERO);
        let r = Neuron { w, b, nonlin };
        proof {
            lemma_extends_trans(old(tape), &mid, tape);
            let m = width(nin);
            assert(r@.w =~= neuron_at(base, m, nonlin).w);
            assert forall|k: int| 0 <= k < r@.w.len() implies drawn(#[trigger] tape@[r@.w[k]], *draw) by {
                assert(tape@[base + k] == mid@[base + k]);
            }
        }
        r
    }

    /// Records a rectifying neuron of `nin` inputs.
    pub fn from<F: Fn() -> u64>(tape: &mut Tape, nin: i32, draw: &F) -> (r: Neuron)
        requires
            old(tape).wf(),
            call_requires(*draw, ()),
        ensures
            final(tape).wf(),
            final(tape).extends(old(tape)),
            final(tape)@.len() == old(tape)@.len() + width(nin) + 1,
            r@ == neuron_at(old(tape)@.len() as int, width(nin), true),
            r@.within(final(tape)@.len()),
            fresh_neuron(final(tape)@, r@, *draw),
    {
        Neuron::new(tape, nin, true, draw)
    }

    /// Records the neuron's output on the inputs `x`. A weight without an
    /// input, or an input without a weight, is left out.
    pub fn forward(&self, tape: &mut Tape, x: &Vec<Value>) -> (out: Value)
        requires
            old(tape).wf(),
            old(tape).contains_all(x@),
            self@.accepts(old(tape)@.len(), x@.len()),
        ensures
            final(tape).wf(),
            final(tape).extends(old(tape)),
            final(tape)@ == with_neuron(old(tape)@, self@, positions(x@)),
            out@ == final(tape)@.len() - 1,
    {
        let ghost g = tape@;
        let ghost ws = self@.w;
        let ghost xs = positions(x@);
        let count = if self.w.len() < x.len() {
            self.w.len()
        } else {
            x.len()
        };
        proof {
            assert(ws[0] == self.w@[0]@);
        }
        let mut acc = self.w[0].mul(tape, &x[0]);
        let mut i: usize = 1;
        while i < count
            invariant
                1 <= i <= count,
                count == pairs(self@, xs),
                g == old(tape)@,
                ws == self@.w,
                ws == positions(self.w@),
                xs == positions(x@),
                self@.within(g.len()),
                old(tape).contains_all(x@),
                tape.wf(),
                tape.extends(old(tape)),
                tape@ == with_dot(g, ws, xs, i as int),
                acc@ == tape@.len() - 1,
            decreases count - i,
        {
            let ghost before = *tape;
            proof {
                assert(ws[i as int] == self.w@[i as int]@);
            }
            let p = self.w[i].mul(tape, &x[i]);
            let ghost mid = *tape;
            acc = acc.add(tape, &p);
            proof {
                lemma_extends_trans(&before, &mid, tape);
                lemma_extends_trans(old(tape), &before, tape);
            }
            i += 1;
        }
        let ghost before = *tape;
        let out = acc.add(tape, &self.b);
        proof {
            lemma_extends_trans(old(tape), &before, tape);
        }
        if self.nonlin {
            let ghost mid = *tape;
            let out = out.relu(tape);
            proof {
                lemma_extends_trans(old(tape), &mid, tape);
            }
            out
        } else {
            out
        }
    }

    /// Whether the neuron's output on `inputs` inputs can be recorded on a
    /// tape of `nodes` nodes.
    pub fn fits(&self, nodes: usize, inputs: usize) -> (r: bool)
        ensures
            r == self@.accepts(nodes as nat, inputs as nat),
    {
        if self.w.len() < 1 || inputs < 1 || self.b.index >= nodes {
            return false;
        }
        let mut i: usize = 0;
        while i < self.w.len()
            invariant
                i <= self.w@.len(),
                forall|k: int| 0 <= k < i ==> 0 <= #[trigger] self@.w[k] < nodes,
            decreases self.w@.len() - i,
        {
            if self.w[i].index >= nodes {
                assert(self@.w[i as int] >= nodes);
                return false;
            }
            i += 1;
        }
        true
    }

    /// The neuron's parameters: the bias, then the weights.
    pub fn parameters(&self) -> (out: Vec<Value>)
        ensures
            positions(out@) == self@.parameters(),
    {
        let mut out = self.w.clone();
        out.insert(0, self.b);
        out
    }
}

} // verus!
