//! The gradient pass, laid out as a list of steps.
//!
//! Below, `v(n)` is the value of node `n` and `g(n)` its gradient, the
//! accumulator that the caller keeps for it. The caller carries out the
//! steps in order, in double-precision arithmetic.

use vstd::prelude::*;
use std::collections::HashSet;
use crate::engine::{positions, Tape, Value};
use crate::graph::{node_ok, Node, Op};
use crate::order::{lemma_visit_grows, post_order};

verus! {

/// One step of a gradient pass.
#[derive(Clone, Copy, PartialEq, Eq, Structural, Debug, Hash)]
pub enum Step {
    /// `g(node) = 1`: the gradient of the root with respect to itself.
    Seed { node: Value },
    /// `g(node) = 0`: a gradient reset before a new pass.
    Zero { node: Value },
    /// `g(into) += g(from)`: the rule of a sum, for either operand.
    Pass { from: Value, into: Value },
    /// `g(into) += v(by) * g(from)`: the rule of a product, for the operand
    /// `into` with the other operand `by`.
    Scale { from: Value, into: Value, by: Value },
    /// `g(into) += v(exponent) * v(into)^(v(exponent) - 1) * g(from)`: the
    /// rule of a power, for its base.
    Power { from: Value, into: Value, exponent: Value },
    /// `g(into) += g(from)` if `v(into) > 0`, else `g(into) += 0`: the rule
    /// of a rectifier.
    Gate { from: Value, into: Value },
}

/// A step, with nodes named by their positions.
pub enum StepModel {
    Seed { node: int },
    Zero { node: int },
    Pass { from: int, into: int },
    Scale { from: int, into: int, by: int },
    Power { from: int, into: int, exponent: int },
    Gate { from: int, into: int },
}

impl StepModel {
    /// The node whose gradient the step reads; for a step that sets a
    /// gradient, the node that it sets.
    pub open spec fn source(self) -> int {
        match self {
            StepModel::Seed { node } => node,
            StepModel::Zero { node } => node,
            StepModel::Pass { from, into } => from,
            StepModel::Scale { from, into, by } => from,
            StepModel::Power { from, into, exponent } => from,
            StepModel::Gate { from, into } => from,
        }
    }

    /// The step adds to a gradient; the others set one.
    pub open spec fn adds(self) -> bool {
        !(self is Seed) && !(self is Zero)
    }

    /// The node whose gradient the step writes.
    pub open spec fn target(self) -> int {
        match self {
            StepModel::Seed { node } => node,
            StepModel::Zero { node } => node,
            StepModel::Pass { from, into } => into,
            StepModel::Scale { from, into, by } => into,
            StepModel::Power { from, into, exponent } => into,
            StepModel::Gate { from, into } => into,
        }
    }
}

impl View for Step {
    type V = StepModel;

    open spec fn view(&self) -> StepModel {
        match *self {
            Step::Seed { node } => StepModel::Seed { node: node@ },
            Step::Zero { node } => StepModel::Zero { node: node@ },
            Step::Pass { from, into } => StepModel::Pass { from: from@, into: into@ },
            Step::Scale { from, into, by } => StepModel::Scale { from: from@, into: into@, by: by@ },
            Step::Power { from, into, exponent } => StepModel::Power {
                from: from@,
                into: into@,
                exponent: exponent@,
            },
            Step::Gate { from, into } => StepModel::Gate { from: from@, into: into@ },
        }
    }
}

/// The models of a sequence of steps.
pub open spec fn models(steps: Seq<Step>) -> Seq<StepModel> {
    steps.map_values(|s: Step| s@)
}

/// The steps by which node `n` hands its gradient to its operands: none for
/// a literal; for a sum, the gradient itself to both operands; for a
/// product, to each operand the gradient times the other operand; for a
/// power, to the base alone; for a rectifier, the gradient where the operand
/// is positive.
pub open spec fn local_steps(g: Seq<Node>, n: int) -> Seq<StepModel> {
    let operands = g[n].operands;
    match g[n].op {
        None => Seq::empty(),
        Some(Op::Add) => seq![
            StepModel::Pass { from: n, into: operands[0] },
            StepModel::Pass { from: n, into: operands[1] },
        ],
        Some(Op::Mul) => seq![
            StepModel::Scale { from: n, into: operands[0], by: operands[1] },
            StepModel::Scale { from: n, into: operands[1], by: operands[0] },
        ],
        Some(Op::Pow) => seq![StepModel::Power { from: n, into: operands[0], exponent: operands[1] }],
        Some(Op::Relu) => seq![StepModel::Gate { from: n, into: operands[0] }],
    }
}

/// The steps of the nodes of `order`, taken from the last node to the first.
pub open spec fn sweep(g: Seq<Node>, order: Seq<int>) -> Seq<StepModel>
    decreases order.len(),
{
    if order.len() == 0 {
        Seq::empty()
    } else {
        local_steps(g, order.last()) + sweep(g, order.drop_last())
    }
}

/// The gradient pass from `root`: the seed, then the steps of the nodes
/// under `root` in reverse post-order, so from `root` towards the literals.
pub open spec fn backward_steps(g: Seq<Node>, root: int) -> Seq<StepModel> {
    seq![StepModel::Seed { node: root }] + sweep(g, post_order(g, root))
}

impl Value {
    /// Lays out the gradient pass from `self`.
    ///
    /// The first step sets the gradient of `self` to 1. Then every node
    /// under `self` has its turn once, after all the nodes that use it, and
    /// adds to the gradients of its operands by its operator's rule.
    /// Gradients that the caller has not reset are added to.
    pub fn backward(&self, tape: &Tape) -> (steps: Vec<Step>)
        requires
            tape.wf(),
            tape.contains(*self),
        ensures
            models(steps@) == backward_steps(tape@, self@),
    {
        let ghost g = tape@;
        let mut topo: Vec<Value> = Vec::new();
        let mut visited: HashSet<usize> = HashSet::new();
        assert(positions(topo@) =~= Seq::<int>::empty());
        self._build_topo(tape, &mut topo, &mut visited);
        let ghost order = positions(topo@);
        proof {
            lemma_visit_grows(g, self@, Seq::empty());
        }

        let mut steps: Vec<Step> = Vec::new();
        steps.push(Step::Seed { node: *self });
        let mut i: usize = topo.len();
        assert(order.take(i as int) =~= order);
        while i > 0
            invariant
                tape.wf(),
                g == tape@,
                order == positions(topo@),
                i <= topo.len(),
                forall|j: int| 0 <= j < order.len() ==> 0 <= #[trigger] order[j] < g.len(),
                models(steps@) + sweep(g, order.take(i as int)) == backward_steps(g, self@),
            decreases i,
        {
            let ghost before = models(steps@);
            let ghost rest = order.take(i as int);
            i -= 1;
            let v = topo[i];
            let node = tape.get(&v);
            proof {
                assert(node_ok(g, v@));
                assert(rest.drop_last() =~= order.take(i as int));
            }
            match node._op {
                None => {},
                Some(Op::Add) => {
                    steps.push(Step::Pass { from: v, into: node._prev[0] });
                    steps.push(Step::Pass { from: v, into: node._prev[1] });
                },
                Some(Op::Mul) => {
                    steps.push(Step::Scale { from: v, into: node._prev[0], by: node._prev[1] });
                    steps.push(Step::Scale { from: v, into: node._prev[1], by: node._prev[0] });
                },
                Some(Op::Pow) => {
                    steps.push(Step::Power { from: v, into: node._prev[0], exponent: node._prev[1] });
                },
                Some(Op::Relu) => {
                    steps.push(Step::Gate { from: v, into: node._prev[0] });
                },
            }
            proof {
                assert(before + sweep(g, rest) =~= (before + local_steps(g, v@)) + sweep(
                    g,
                    order.take(i as int),
                ));
            }
        }
        steps
    }
}

} // verus!
