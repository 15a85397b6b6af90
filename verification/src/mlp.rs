//! A multi-layer perceptron: layers, each fed with the outputs of the one
//! before.

use vstd::prelude::*;
use crate::backward::{models, Step, StepModel};
use crate::engine::{lemma_extends_refl, lemma_extends_trans, positions, Tape, Value};
use crate::graph::Node;
use crate::layer::{fresh_layer, layer_accepts, layer_at, layer_outputs, layer_parameters, layer_within};
use crate::layer::{lemma_fresh_neuron_kept, with_layer, Layer};
use crate::neuron::{width, NeuronModel};

verus! {

/// The position at which layer `i` of a perceptron begins that stands from
/// position `base` on, where `sizes` holds the number of inputs and then
/// the number of neurons of each layer.
pub open spec fn layer_base(base: int, sizes: Seq<i32>, i: int) -> int
    decreases i,
{
    if i <= 0 {
        base
    } else {
        layer_base(base, sizes, i - 1) + width(sizes[i]) * (width(sizes[i - 1]) + 1)
    }
}

/// The perceptron that stands from position `base` on, layer after layer:
/// layer `i` has `sizes[i + 1]` neurons of `sizes[i]` inputs each, and every
/// layer but the last rectifies.
pub open spec fn mlp_at(base: int, sizes: Seq<i32>) -> Seq<Seq<NeuronModel>> {
    Seq::new(
        (sizes.len() - 1) as nat,
        |i: int|
            layer_at(layer_base(base, sizes, i), width(sizes[i]), width(sizes[i + 1]), i != sizes.len() - 2),
    )
}

/// `g` after the first `count` layers have been fed: the first with `x`,
/// each other with the outputs of the one before.
pub open spec fn mlp_graph(g: Seq<Node>, layers: Seq<Seq<NeuronModel>>, x: Seq<int>, count: int) -> Seq<Node>
    decreases count, 1int,
{
    if count <= 0 {
        g
    } else {
        with_layer(
            mlp_graph(g, layers, x, count - 1),
            layers[count - 1],
            mlp_signal(g, layers, x, count - 1),
            layers[count - 1].len() as int,
        )
    }
}

/// The outputs of layer `count - 1`, which feed layer `count`; for the first
/// layer, `x`.
pub open spec fn mlp_signal(g: Seq<Node>, layers: Seq<Seq<NeuronModel>>, x: Seq<int>, count: int) -> Seq<int>
    decreases count, 0int,
{
    if count <= 0 {
        x
    } else {
        layer_outputs(mlp_graph(g, layers, x, count - 1), layers[count - 1], mlp_signal(g, layers, x, count - 1))
    }
}

/// The number of inputs that layer `i` is fed with.
pub open spec fn feed(layers: Seq<Seq<NeuronModel>>, inputs: nat, i: int) -> nat {
    if i <= 0 {
        inputs
    } else {
        layers[i - 1].len()
    }
}

/// The parameters of every layer are among the first `len` nodes.
pub open spec fn mlp_within(layers: Seq<Seq<NeuronModel>>, len: nat) -> bool {
    forall|i: int| 0 <= i < layers.len() ==> layer_within(#[trigger] layers[i], len)
}

/// A pass with `inputs` inputs can be recorded among `nodes` nodes: every
/// layer accepts what it is fed with.
pub open spec fn mlp_accepts(layers: Seq<Seq<NeuronModel>>, nodes: nat, inputs: nat) -> bool {
    forall|i: int| 0 <= i < layers.len() ==> layer_accepts(#[trigger] layers[i], nodes, feed(layers, inputs, i))
}

/// The parameters of the first `count` layers, layer by layer.
pub open spec fn mlp_parameters(layers: Seq<Seq<NeuronModel>>, count: int) -> Seq<int>
    decreases count,
{
    if count <= 0 {
        Seq::empty()
    } else {
        mlp_parameters(layers, count - 1) + layer_parameters(layers[count - 1], layers[count - 1].len() as int)
    }
}

/// The steps that reset the gradients of `nodes`, one for each.
pub open spec fn zero_steps(nodes: Seq<int>) -> Seq<StepModel> {
    nodes.map_values(|n: int| StepModel::Zero { node: n })
}

/// A fresh layer stays fresh when nodes are appended.
pub proof fn lemma_fresh_layer_kept<F: Fn() -> u64>(
    g: Seq<Node>,
    h: Seq<Node>,
    layer: Seq<NeuronModel>,
    draw: F,
)
    requires
        fresh_layer(g, layer, draw),
        layer_within(layer, g.len()),
        g.len() <= h.len(),
        h.take(g.len() as int) == g,
    ensures
        fresh_layer(h, layer, draw),
{
    assert forall|j: int| 0 <= j < layer.len() implies crate::neuron::fresh_neuron(
        h,
        #[trigger] layer[j],
        draw,
    ) by {
        lemma_fresh_neuron_kept(g, h, layer[j], draw);
    }
}

/// A multi-layer perceptron on a tape.
pub struct MLP {
    layers: Vec<Layer>,
}

impl View for MLP {
    type V = Seq<Seq<NeuronModel>>;

    closed spec fn view(&self) -> Seq<Seq<NeuronModel>> {
        self.layers@.map_values(|l: Layer| l@)
    }
}

impl MLP {
    /// Records a perceptron of `nin` inputs with one layer for each entry of
    /// `nouts`, of as many neurons as the entry says. Every layer but the
    /// last rectifies.
    pub fn new<F: Fn() -> u64>(tape: &mut Tape, nin: i32, nouts: Vec<i32>, draw: &F) -> (r: MLP)
        requires
            old(tape).wf(),
            call_requires(*draw, ()),
        ensures
            final(tape).wf(),
            final(tape).extends(old(tape)),
            final(tape)@.len() == layer_base(old(tape)@.len() as int, seq![nin] + nouts@, nouts@.len() as int),
            r@ == mlp_at(old(tape)@.len() as int, seq![nin] + nouts@),
            mlp_within(r@, final(tape)@.len()),
            forall|i: int| 0 <= i < r@.len() ==> fresh_layer(final(tape)@, #[trigger] r@[i], *draw),
    {
        let ghost base = tape@.len() as int;
        let ghost sizes = seq![nin] + nouts@;
        let mut nouts = nouts;
        nouts.insert(0, nin);
        let mut layers: Vec<Layer> = Vec::new();
        let n = nouts.len() - 1;
        let mut i: usize = 0;
        proof {
            lemma_extends_refl(tape);
        }
        while i < n
            invariant
                call_requires(*draw, ()),
                base == old(tape)@.len(),
                sizes == nouts@,
                n == sizes.len() - 1,
                i <= n,
                tape.wf(),
                tape.extends(old(tape)),
                tape@.len() == layer_base(base, sizes, i as int),
                layers@.len() == i,
                forall|k: int|
                    0 <= k < i ==> (#[trigger] layers@[k])@ == layer_at(
                        layer_base(base, sizes, k),
                        width(sizes[k]),
                        width(sizes[k + 1]),
                        k != n - 1,
                    ),
                forall|k: int| 0 <= k < i ==> layer_within((#[trigger] layers@[k])@, tape@.len()),
                forall|k: int| 0 <= k < i ==> fresh_layer(tape@, (#[trigger] layers@[k])@, *draw),
            decreases n - i,
        {
            let ghost mid = *tape;
            let layer = Layer::new(tape, nouts[i], nouts[i + 1], i != n - 1, draw);
            proof {
                lemma_extends_trans(old(tape), &mid, tape);
                assert(width(sizes[i + 1]) * (width(sizes[i as int]) + 1) >= 0) by (nonlinear_arith)
                    requires
                        width(sizes[i + 1]) >= 0,
                        width(sizes[i as int]) >= 0,
                ;
                assert forall|k: int| 0 <= k < i implies fresh_layer(tape@, (#[trigger] layers@[k])@, *draw) by {
                    lemma_fresh_layer_kept(mid@, tape@, layers@[k]@, *draw);
                }
            }
            layers.push(layer);
            i += 1;
        }
        let r = MLP { layers };
        r
    }

    /// Records a pass through the layers: the first is fed with `x`, each
    /// other with the outputs of the one before. The outputs of the last
    /// layer are handed out; without a layer, `x` itself.
    pub fn forward(&self, tape: &mut Tape, x: Vec<Value>) -> (out: Vec<Value>)
        requires
            old(tape).wf(),
            old(tape).contains_all(x@),
            mlp_accepts(self@, old(tape)@.len(), x@.len()),
        ensures
            final(tape).wf(),
            final(tape).extends(old(tape)),
            final(tape)@ == mlp_graph(old(tape)@, self@, positions(x@), self@.len() as int),
            positions(out@) == mlp_signal(old(tape)@, self@, positions(x@), self@.len() as int),
            final(tape).contains_all(out@),
    {
        let ghost g = tape@;
        let ghost xs = positions(x@);
        let ghost inputs = x@.len();
        let mut x = x;
        let mut i: usize = 0;
        proof {
            lemma_extends_refl(tape);
        }
        while i < self.layers.len()
            invariant
                i <= self.layers@.len(),
                self@ == self.layers@.map_values(|l: Layer| l@),
                g == old(tape)@,
                mlp_accepts(self@, g.len(), inputs),
                tape.wf(),
                tape.extends(old(tape)),
                tape@ == mlp_graph(g, self@, xs, i as int),
                positions(x@) == mlp_signal(g, self@, xs, i as int),
                x@.len() == feed(self@, inputs, i as int),
                tape.contains_all(x@),
            decreases self.layers@.len() - i,
        {
            let ghost mid = *tape;
            proof {
                assert(self@[i as int] == self.layers@[i as int]@);
            }
            x = self.layers[i].forward(tape, &x);
            proof {
                lemma_extends_trans(old(tape), &mid, tape);
            }
            i += 1;
        }
        x
    }

    /// Whether a pass with `inputs` inputs can be recorded on a tape of
    /// `nodes` nodes.
    pub fn fits(&self, nodes: usize, inputs: usize) -> (r: bool)
        ensures
            r == mlp_accepts(self@, nodes as nat, inputs as nat),
    {
        let mut i: usize = 0;
        let mut fed: usize = inputs;
        while i < self.layers.len()
            invariant
                i <= self.layers@.len(),
                self@ == self.layers@.map_values(|l: Layer| l@),
                fed == feed(self@, inputs as nat, i as int),
                forall|k: int|
                    0 <= k < i ==> layer_accepts(#[trigger] self@[k], nodes as nat, feed(self@, inputs as nat, k)),
            decreases self.layers@.len() - i,
        {
            if !self.layers[i].fits(nodes, fed) {
                assert(!layer_accepts(self@[i as int], nodes as nat, feed(self@, inputs as nat, i as int)));
                return false;
            }
            fed = self.layers[i].len();
            i += 1;
        }
        true
    }

    /// The parameters of the layers, layer by layer.
    pub fn parameters(&self) -> (out: Vec<Value>)
        ensures
            positions(out@) == mlp_parameters(self@, self@.len() as int),
    {
        let mut params: Vec<Value> = Vec::new();
        let mut i: usize = 0;
        assert(positions(params@) =~= Seq::<int>::empty());
        while i < self.layers.len()
            invariant
                i <= self.layers@.len(),
                self@ == self.layers@.map_values(|l: Layer| l@),
                positions(params@) == mlp_parameters(self@, i as int),
            decreases self.layers@.len() - i,
        {
            let mut more = self.layers[i].parameters();
            params.append(&mut more);
            i += 1;
        }
        params
    }

    /// Lays out the reset of the gradients of all parameters: one step for
    /// each, in the order of `parameters`.
    pub fn zero_grad(&self) -> (steps: Vec<Step>)
        ensures
            models(steps@) == zero_steps(mlp_parameters(self@, self@.len() as int)),
    {
        let params = self.parameters();
        let mut steps: Vec<Step> = Vec::new();
        let mut i: usize = 0;
        while i < params.len()
            invariant
                i <= params@.len(),
                steps@.len() == i,
                forall|k: int| 0 <= k < i ==> (#[trigger] steps@[k])@ == (StepModel::Zero { node: params@[k]@ }),
            decreases params@.len() - i,
        {
            steps.push(Step::Zero { node: params[i] });
            i += 1;
        }
        steps
    }
}

} // verus!
