//! A layer: neurons that all read the same inputs.

use vstd::prelude::*;
use crate::engine::{lemma_extends_refl, lemma_extends_trans, positions, Tape, Value};
use crate::graph::Node;
use crate::neuron::{drawn, fresh_neuron, neuron_at, width, with_neuron, Neuron, NeuronModel};

verus! {

/// The layer of `count` neurons of `m` weights each that stand one after
/// the other from position `base` on.
pub open spec fn layer_at(base: int, m: int, count: int, nonlin: bool) -> Seq<NeuronModel> {
    Seq::new(count as nat, |j: int| neuron_at(base + j * (m + 1), m, nonlin))
}

/// Every neuron of `layer` is fresh in `g`.
pub open spec fn fresh_layer<F: Fn() -> u64>(g: Seq<Node>, layer: Seq<NeuronModel>, draw: F) -> bool {
    forall|j: int| 0 <= j < layer.len() ==> fresh_neuron(g, #[trigger] layer[j], draw)
}

/// The parameters of every neuron of `layer` are among the first `len`
/// nodes.
pub open spec fn layer_within(layer: Seq<NeuronModel>, len: nat) -> bool {
    forall|j: int| 0 <= j < layer.len() ==> (#[trigger] layer[j]).within(len)
}

/// Every neuron of `layer` has a weight.
pub open spec fn layer_weighted(layer: Seq<NeuronModel>) -> bool {
    forall|j: int| 0 <= j < layer.len() ==> (#[trigger] layer[j]).w.len() >= 1
}

/// The outputs of `layer` on `inputs` inputs can be recorded among `nodes`
/// nodes: its parameters are among them, every neuron has a weight, and a
/// layer that has a neuron is given an input.
pub open spec fn layer_accepts(layer: Seq<NeuronModel>, nodes: nat, inputs: nat) -> bool {
    &&& layer_within(layer, nodes)
    &&& layer_weighted(layer)
    &&& layer.len() > 0 ==> inputs >= 1
}

/// `g` with the outputs of the first `count` neurons of `layer` on the
/// inputs `x` appended, one neuron after the other.
pub open spec fn with_layer(g: Seq<Node>, layer: Seq<NeuronModel>, x: Seq<int>, count: int) -> Seq<Node>
    decreases count,
{
    if count <= 0 {
        g
    } else {
        with_neuron(with_layer(g, layer, x, count - 1), layer[count - 1], x)
    }
}

/// The nodes that hold the outputs of the neurons of `layer` on `x`: each
/// output is the last node that its neuron appends.
pub open spec fn layer_outputs(g: Seq<Node>, layer: Seq<NeuronModel>, x: Seq<int>) -> Seq<int> {
    Seq::new(layer.len(), |j: int| with_layer(g, layer, x, j + 1).len() - 1)
}

/// The parameters of the first `count` neurons of `layer`, neuron by neuron.
pub open spec fn layer_parameters(layer: Seq<NeuronModel>, count: int) -> Seq<int>
    decreases count,
{
    if count <= 0 {
        Seq::empty()
    } else {
        layer_parameters(layer, count - 1) + layer[count - 1].parameters()
    }
}

/// A layer laid out from `base` on ends before `base + count * (m + 1)`.
pub proof fn lemma_layer_at_within(base: int, m: int, count: int, nonlin: bool)
    requires
        0 <= base,
        0 <= m,
        0 <= count,
    ensures
        layer_within(layer_at(base, m, count, nonlin), (base + count * (m + 1)) as nat),
{
    let layer = layer_at(base, m, count, nonlin);
    assert forall|j: int| 0 <= j < layer.len() implies (#[trigger] layer[j]).within(
        (base + count * (m + 1)) as nat,
    ) by {
        assert(0 <= j * (m + 1) && (j + 1) * (m + 1) <= count * (m + 1)) by (nonlinear_arith)
            requires
                0 <= j < count,
                m >= 0,
        ;
        assert((j + 1) * (m + 1) == j * (m + 1) + (m + 1)) by (nonlinear_arith);
    }
}

/// A fresh neuron stays fresh when nodes are appended.
pub proof fn lemma_fresh_neuron_kept<F: Fn() -> u64>(g: Seq<Node>, h: Seq<Node>, n: NeuronModel, draw: F)
    requires
        fresh_neuron(g, n, draw),
        n.within(g.len()),
        g.len() <= h.len(),
        h.take(g.len() as int) == g,
    ensures
        fresh_neuron(h, n, draw),
{
    assert forall|i: int| 0 <= i < n.w.len() implies drawn(#[trigger] h[n.w[i]], draw) by {
        assert(h.take(g.len() as int)[n.w[i]] == h[n.w[i]]);
    }
}

/// A layer of neurons on a tape.
pub struct Layer {
    neurons: Vec<Neuron>,
}

impl View for Layer {
    type V = Seq<NeuronModel>;

    closed spec fn view(&self) -> Seq<NeuronModel> {
        self.neurons@.map_values(|n: Neuron| n@)
    }
}

impl Layer {
    /// Records a layer of `nout` neurons of `nin` inputs each, one neuron
    /// after the other. A negative count counts as none.
    pub fn new<F: Fn() -> u64>(tape: &mut Tape, nin: i32, nout: i32, nonlin: bool, draw: &F) -> (r: Layer)
        requires
            old(tape).wf(),
            call_requires(*draw, ()),
        ensures
            final(tape).wf(),
            final(tape).extends(old(tape)),
            final(tape)@.len() == old(tape)@.len() + width(nout) * (width(nin) + 1),
            r@ == layer_at(old(tape)@.len() as int, width(nin), width(nout), nonlin),
            layer_within(r@, final(tape)@.len()),
            fresh_layer(final(tape)@, r@, *draw),
    {
        let ghost base = tape@.len() as int;
        let ghost m = width(nin);
        let mut neurons: Vec<Neuron> = Vec::new();
        let mut j: i32 = 0;
        proof {
            lemma_extends_refl(tape);
        }
        while j < nout
            invariant
                call_requires(*draw, ()),
                base == old(tape)@.len(),
                m == width(nin),
                0 <= j,
                j <= width(nout),
                tape.wf(),
                tape.extends(old(tape)),
                tape@.len() == base + j * (m + 1),
                neurons@.len() == j,
                forall|k: int| 0 <= k < j ==> (#[trigger] neurons@[k])@ == neuron_at(base + k * (m + 1), m, nonlin),
                forall|k: int| 0 <= k < j ==> fresh_neuron(tape@, (#[trigger] neurons@[k])@, *draw),
            decreases nout - j,
        {
            let ghost mid = *tape;
            let neuron = Neuron::new(tape, nin, nonlin, draw);
            proof {
                lemma_extends_trans(old(tape), &mid, tape);
                assert((j + 1) * (m + 1) == j * (m + 1) + (m + 1)) by (nonlinear_arith);
                assert forall|k: int| 0 <= k < j implies fresh_neuron(tape@, (#[trigger] neurons@[k])@, *draw) by {
                    assert(0 <= k * (m + 1) && (k + 1) * (m + 1) <= j * (m + 1)) by (nonlinear_arith)
                        requires
                            0 <= k < j,
                            m >= 0,
                    ;
                    assert((k + 1) * (m + 1) == k * (m + 1) + (m + 1)) by (nonlinear_arith);
                    lemma_fresh_neuron_kept(mid@, tape@, neurons@[k]@, *draw);
                }
            }
            neurons.push(neuron);
            j += 1;
        }
        let r = Layer { neurons };
        proof {
            lemma_layer_at_within(base, m, width(nout), nonlin);
        }
        r
    }

    /// Records a rectifying neuron of `nin` inputs.
    pub fn from<F: Fn() -> u64>(tape: &mut Tape, nin: i32, draw: &F) -> (r: Neuron)
        requires
            old(tape).wf(),
            call_requires(*draw, ()),
        ensures
            final(tape).wf(),
            final(tape).extends(old(tape)),
            final(tape)@.len() == old(tape)@.len() + width(nin) + 1,
            r@ == neuron_at(old(tape)@.len() as int, width(nin), true),
            fresh_neuron(final(tape)@, r@, *draw),
    {
        Neuron::new(tape, nin, true, draw)
    }

    /// Records the output of every neuron on the inputs `x`, neuron by
    /// neuron.
    pub fn forward(&self, tape: &mut Tape, x: &Vec<Value>) -> (out: Vec<Value>)
        requires
            old(tape).wf(),
            old(tape).contains_all(x@),
            layer_accepts(self@, old(tape)@.len(), x@.len()),
        ensures
            final(tape).wf(),
            final(tape).extends(old(tape)),
            final(tape)@ == with_layer(old(tape)@, self@, positions(x@), self@.len() as int),
            positions(out@) == layer_outputs(old(tape)@, self@, positions(x@)),
            final(tape).contains_all(out@),
    {
        let ghost g = tape@;
        let ghost xs = positions(x@);
        let mut out: Vec<Value> = Vec::new();
        let mut j: usize = 0;
        proof {
            lemma_extends_refl(tape);
        }
        while j < self.neurons.len()
            invariant
                j <= self.neurons@.len(),
                self@ == self.neurons@.map_values(|n: Neuron| n@),
                g == old(tape)@,
                xs == positions(x@),
                layer_within(self@, g.len()),
                layer_weighted(self@),
                self@.len() > 0 ==> x@.len() >= 1,
                old(tape).contains_all(x@),
                tape.wf(),
                tape.extends(old(tape)),
                tape@ == with_layer(g, self@, xs, j as int),
                out@.len() == j,
                forall|k: int| 0 <= k < j ==> (#[trigger] out@[k])@ == with_layer(g, self@, xs, k + 1).len() - 1,
                forall|k: int| 0 <= k < j ==> tape.contains(#[trigger] out@[k]),
            decreases self.neurons@.len() - j,
        {
            let ghost mid = *tape;
            proof {
                assert(self@[j as int] == self.neurons@[j as int]@);
                assert forall|k: int| 0 <= k < x@.len() implies tape.contains(#[trigger] x@[k]) by {
                    assert(old(tape).contains(x@[k]));
                }
            }
            let y = self.neurons[j].forward(tape, x);
            proof {
                lemma_extends_trans(old(tape), &mid, tape);
            }
            out.push(y);
            j += 1;
        }
        out
    }

    /// The number of neurons.
    pub fn len(&self) -> (n: usize)
        ensures
            n == self@.len(),
    {
        self.neurons.len()
    }

    /// Whether the layer's outputs on `inputs` inputs can be recorded on a
    /// tape of `nodes` nodes.
    pub fn fits(&self, nodes: usize, inputs: usize) -> (r: bool)
        ensures
            r == layer_accepts(self@, nodes as nat, inputs as nat),
    {
        let mut j: usize = 0;
        while j < self.neurons.len()
            invariant
                j <= self.neurons@.len(),
                self@ == self.neurons@.map_values(|n: Neuron| n@),
                forall|k: int| 0 <= k < j ==> (#[trigger] self@[k]).accepts(nodes as nat, inputs as nat),
            decreases self.neurons@.len() - j,
        {
            if !self.neurons[j].fits(nodes, inputs) {
                assert(!self@[j as int].accepts(nodes as nat, inputs as nat));
                return false;
            }
            j += 1;
        }
        proof {
            if self@.len() > 0 {
                assert(self@[0].accepts(nodes as nat, inputs as nat));
            }
        }
        true
    }

    /// The parameters of the neurons, neuron by neuron.
    pub fn parameters(&self) -> (out: Vec<Value>)
        ensures
            positions(out@) == layer_parameters(self@, self@.len() as int),
    {
        let mut out: Vec<Value> = Vec::new();
        let mut j: usize = 0;
        assert(positions(out@) =~= Seq::<int>::empty());
        while j < self.neurons.len()
            invariant
                j <= self.neurons@.len(),
                self@ == self.neurons@.map_values(|n: Neuron| n@),
                positions(out@) == layer_parameters(self@, j as int),
            decreases self.neurons@.len() - j,
        {
            let mut more = self.neurons[j].parameters();
            out.append(&mut more);
            j += 1;
        }
        out
    }
}

} // verus!
