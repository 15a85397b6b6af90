use rustygrad::{Layer, Neuron, Step, Tape, Value, MLP};
use std::collections::HashSet;

fn lit(tape: &mut Tape, x: f64) -> Value {
    Value::from(tape, x.to_bits())
}

fn half() -> u64 {
    (0.5f64).to_bits()
}

#[test]
fn walk_lists_operands_before_their_users() {
    let mut tape = Tape::new();
    let a = lit(&mut tape, 1.0);
    let b = lit(&mut tape, 2.0);
    let c = lit(&mut tape, 3.0);
    let bc = b.mul(&mut tape, &c);
    let d = bc.add(&mut tape, &a);
    let mut topo = Vec::new();
    let mut visited = HashSet::new();
    d._build_topo(&tape, &mut topo, &mut visited);
    assert_eq!(topo, vec![b, c, bc, a, d]);
    let marked: HashSet<usize> = [0, 1, 2, 3, 4].into_iter().collect();
    assert_eq!(visited, marked);
}

#[test]
fn walk_lists_a_shared_node_once() {
    let mut tape = Tape::new();
    let a = lit(&mut tape, 1.0);
    let s = a.relu(&mut tape);
    let u = s.add(&mut tape, &s);
    let v = s.mul(&mut tape, &u);
    let w = v.add(&mut tape, &s);
    let mut topo = Vec::new();
    let mut visited = HashSet::new();
    w._build_topo(&tape, &mut topo, &mut visited);
    assert_eq!(topo, vec![a, s, u, v, w]);
    assert_eq!(topo.iter().filter(|n| **n == s).count(), 1);
}

#[test]
fn walk_skips_what_is_marked() {
    let mut tape = Tape::new();
    let a = lit(&mut tape, 1.0);
    let b = lit(&mut tape, 2.0);
    let c = a.add(&mut tape, &b);
    let d = c.relu(&mut tape);
    let e = d.mul(&mut tape, &a);
    let mut topo = Vec::new();
    let mut visited = HashSet::new();
    c._build_topo(&tape, &mut topo, &mut visited);
    assert_eq!(topo, vec![a, b, c]);
    c._build_topo(&tape, &mut topo, &mut visited);
    assert_eq!(topo, vec![a, b, c]);
    e._build_topo(&tape, &mut topo, &mut visited);
    assert_eq!(topo, vec![a, b, c, d, e]);
    assert_eq!(visited.len(), 5);
}

#[test]
fn walk_leaves_unreached_nodes_out() {
    let mut tape = Tape::new();
    let a = lit(&mut tape, 1.0);
    let b = lit(&mut tape, 2.0);
    let _c = a.add(&mut tape, &b);
    let d = b.relu(&mut tape);
    let mut topo = Vec::new();
    let mut visited = HashSet::new();
    d._build_topo(&tape, &mut topo, &mut visited);
    assert_eq!(topo, vec![b, d]);
}

#[test]
fn backward_runs_against_the_walk() {
    let mut tape = Tape::new();
    let a = lit(&mut tape, 1.0);
    let b = lit(&mut tape, 2.0);
    let c = lit(&mut tape, 3.0);
    let bc = b.mul(&mut tape, &c);
    let r = bc.relu(&mut tape);
    let d = r.add(&mut tape, &a);
    let steps = d.backward(&tape);
    assert_eq!(
        steps,
        vec![
            Step::Seed { node: d },
            Step::Pass { from: d, into: r },
            Step::Pass { from: d, into: a },
            Step::Gate { from: r, into: bc },
            Step::Scale { from: bc, into: b, by: c },
            Step::Scale { from: bc, into: c, by: b },
        ]
    );
}

#[test]
fn backward_gathers_before_it_gives() {
    // every node but the first literal is used again and again
    let mut tape = Tape::new();
    let mut nodes = vec![lit(&mut tape, 1.5)];
    for i in 1..12 {
        let a = nodes[i - 1];
        let b = nodes[i / 2];
        let next = match i % 3 {
            0 => a.add(&mut tape, &b),
            1 => a.mul(&mut tape, &b),
            _ => {
                let r = a.relu(&mut tape);
                r.sub(&mut tape, &b)
            }
        };
        nodes.push(next);
    }
    let root = *nodes.last().unwrap();
    let steps = root.backward(&tape);
    assert_eq!(steps[0], Step::Seed { node: root });
    let ends = |step: &Step| match *step {
        Step::Seed { node } | Step::Zero { node } => (node, node),
        Step::Pass { from, into }
        | Step::Scale { from, into, .. }
        | Step::Power { from, into, .. }
        | Step::Gate { from, into } => (from, into),
    };
    for a in 0..steps.len() {
        assert!(a == 0 || !matches!(steps[a], Step::Seed { .. } | Step::Zero { .. }));
        for b in 1..steps.len() {
            if ends(&steps[a]).1 == ends(&steps[b]).0 {
                assert!(a < b);
            }
        }
    }
    // every operator node has its turn once
    for index in 0..tape.len() {
        let node = Value { index };
        let turns = steps[1..].iter().filter(|step| ends(step).0 == node).count();
        assert_eq!(turns, tape.get(&node)._prev.len());
    }
}

#[test]
fn holds_tells_whether_all_values_are_on_the_tape() {
    let mut tape = Tape::new();
    let a = lit(&mut tape, 1.0);
    let b = lit(&mut tape, 2.0);
    assert!(tape.holds(&vec![]));
    assert!(tape.holds(&vec![a, b, a]));
    assert!(!tape.holds(&vec![a, Value { index: 2 }]));
    assert!(!tape.holds(&vec![Value { index: usize::MAX }]));
    tape.truncate(1);
    assert!(!tape.holds(&vec![b]));
}

#[test]
fn neuron_fits_with_a_weight_and_an_input() {
    let mut tape = Tape::new();
    let n = Neuron::new(&mut tape, 2, true, &half);
    assert!(n.fits(tape.len(), 1));
    assert!(n.fits(tape.len(), 5));
    assert!(!n.fits(tape.len(), 0));
    assert!(!n.fits(2, 1));
    assert!(!n.fits(0, 1));
    let bare = Neuron::new(&mut tape, 0, true, &half);
    assert!(!bare.fits(tape.len(), 1));
}

#[test]
fn layer_fits_when_its_neurons_do() {
    let mut tape = Tape::new();
    let layer = Layer::new(&mut tape, 2, 2, true, &half);
    assert_eq!(layer.len(), 2);
    assert!(layer.fits(tape.len(), 2));
    assert!(!layer.fits(tape.len(), 0));
    assert!(!layer.fits(tape.len() - 1, 2));
    let empty = Layer::new(&mut tape, 2, 0, true, &half);
    assert_eq!(empty.len(), 0);
    assert!(empty.fits(0, 0));
    let bare = Layer::new(&mut tape, 0, 1, true, &half);
    assert!(!bare.fits(tape.len(), 1));
}

#[test]
fn perceptron_fits_when_every_layer_is_fed() {
    let mut tape = Tape::new();
    let model = MLP::new(&mut tape, 2, vec![3, 1], &half);
    assert!(model.fits(tape.len(), 2));
    assert!(model.fits(tape.len(), 1));
    assert!(!model.fits(tape.len(), 0));
    assert!(!model.fits(tape.len() - 1, 2));
    // a layer without neurons starves the next
    let starved = MLP::new(&mut tape, 2, vec![0, 1], &half);
    assert!(!starved.fits(tape.len(), 2));
    let ends_empty = MLP::new(&mut tape, 2, vec![2, 0], &half);
    assert!(ends_empty.fits(tape.len(), 2));
    let none = MLP::new(&mut tape, 2, vec![], &half);
    assert!(none.fits(0, 0));
}
