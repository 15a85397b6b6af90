use rustygrad::{Op, Step, Tape, Value};

/// The value of every node of the tape, in tape order.
fn evaluate(tape: &Tape) -> Vec<f64> {
    let mut data: Vec<f64> = Vec::new();
    for index in 0..tape.len() {
        let node = tape.get(&Value { index });
        let at = |k: usize| data[node._prev[k].index];
        let value = match node._op {
            None => f64::from_bits(node.data.unwrap()),
            Some(Op::Add) => at(0) + at(1),
            Some(Op::Mul) => at(0) * at(1),
            Some(Op::Pow) => at(0).powf(at(1)),
            Some(Op::Relu) => at(0).max(0.0),
        };
        data.push(value);
    }
    data
}

/// Carries out the steps on the gradients.
fn run(steps: &[Step], data: &[f64], grad: &mut [f64]) {
    for step in steps {
        match *step {
            Step::Seed { node } => grad[node.index] = 1.0,
            Step::Zero { node } => grad[node.index] = 0.0,
            Step::Pass { from, into } => grad[into.index] += grad[from.index],
            Step::Scale { from, into, by } => grad[into.index] += data[by.index] * grad[from.index],
            Step::Power { from, into, exponent } => {
                let p = data[exponent.index];
                grad[into.index] += p * data[into.index].powf(p - 1.0) * grad[from.index];
            }
            Step::Gate { from, into } => {
                grad[into.index] += if data[into.index] > 0.0 { grad[from.index] } else { 0.0 };
            }
        }
    }
}

/// The values of the tape and the gradients after one pass from `root`.
fn differentiate(tape: &Tape, root: &Value) -> (Vec<f64>, Vec<f64>) {
    let data = evaluate(tape);
    let mut grad = vec![0.0; data.len()];
    run(&root.backward(tape), &data, &mut grad);
    (data, grad)
}

fn lit(tape: &mut Tape, x: f64) -> Value {
    Value::from(tape, x.to_bits())
}

#[test]
fn forward_of_product_then_sum() {
    let mut tape = Tape::new();
    let a = lit(&mut tape, 2.0);
    let b = lit(&mut tape, -3.0);
    let c = a.mul(&mut tape, &b);
    let d = c.add(&mut tape, &b);
    let data = evaluate(&tape);
    assert_eq!(data[c.index], -6.0);
    assert_eq!(data[d.index], -9.0);
}

#[test]
fn chain_rule_through_a_diamond() {
    let mut tape = Tape::new();
    let a = lit(&mut tape, 2.0);
    let b = lit(&mut tape, -3.0);
    let c = a.add(&mut tape, &b);
    let d = a.mul(&mut tape, &c);
    let steps = d.backward(&tape);
    assert_eq!(
        steps,
        vec![
            Step::Seed { node: d },
            Step::Scale { from: d, into: a, by: c },
            Step::Scale { from: d, into: c, by: a },
            Step::Pass { from: c, into: a },
            Step::Pass { from: c, into: b },
        ]
    );
    let (data, grad) = differentiate(&tape, &d);
    assert_eq!(data[d.index], -2.0);
    assert_eq!(grad[d.index], 1.0);
    assert_eq!(grad[a.index], data[c.index] + data[a.index] * 1.0);
    assert_eq!(grad[a.index], 1.0);
    assert_eq!(grad[b.index], 2.0);
    assert_eq!(grad[c.index], 2.0);
}

#[test]
fn power_takes_its_exponent_as_a_constant() {
    let mut tape = Tape::new();
    let x = lit(&mut tape, 3.0);
    let y = x.pow(&mut tape, (2.0f64).to_bits());
    let exponent = tape.get(&y)._prev[1];
    assert_eq!(tape.get(&y)._op, Some(Op::Pow));
    assert_eq!(tape.get(&y)._prev, vec![x, exponent]);
    assert_eq!(tape.get(&exponent).data, Some((2.0f64).to_bits()));
    assert_eq!(tape.get(&exponent)._op, None);
    let steps = y.backward(&tape);
    assert_eq!(steps, vec![Step::Seed { node: y }, Step::Power { from: y, into: x, exponent }]);
    let (data, grad) = differentiate(&tape, &y);
    assert_eq!(data[y.index], 9.0);
    assert_eq!(grad[x.index], 6.0);
    assert_eq!(grad[exponent.index], 0.0);
}

#[test]
fn power_of_zero_to_a_negative_exponent_is_infinite() {
    let mut tape = Tape::new();
    let x = lit(&mut tape, 0.0);
    let y = x.pow(&mut tape, (-1.0f64).to_bits());
    let (data, grad) = differentiate(&tape, &y);
    assert!(data[y.index].is_infinite());
    assert!(grad[x.index].is_infinite());
}

#[test]
fn relu_gates_the_gradient() {
    let mut tape = Tape::new();
    let x = lit(&mut tape, -2.0);
    let y = x.relu(&mut tape);
    assert_eq!(y.backward(&tape), vec![Step::Seed { node: y }, Step::Gate { from: y, into: x }]);
    let (data, grad) = differentiate(&tape, &y);
    assert_eq!(data[y.index], 0.0);
    assert_eq!(grad[x.index], 0.0);

    let mut tape = Tape::new();
    let x = lit(&mut tape, 2.0);
    let y = x.relu(&mut tape);
    let (data, grad) = differentiate(&tape, &y);
    assert_eq!(data[y.index], 2.0);
    assert_eq!(grad[x.index], 1.0);
}

#[test]
fn shared_node_is_visited_once_and_sums_its_uses() {
    let mut tape = Tape::new();
    let a = lit(&mut tape, 3.0);
    let b = lit(&mut tape, 5.0);
    let s = a.mul(&mut tape, &b);
    // three nodes use s
    let two = lit(&mut tape, 2.0);
    let u = s.mul(&mut tape, &two);
    let v = s.relu(&mut tape);
    let w = s.add(&mut tape, &a);
    let uv = u.add(&mut tape, &v);
    let root = uv.add(&mut tape, &w);
    let steps = root.backward(&tape);
    // the rule of s has its turn once: its two steps, and no more
    let turns: Vec<&Step> = steps
        .iter()
        .filter(|step| matches!(step, Step::Scale { from, .. } if *from == s))
        .collect();
    assert_eq!(turns.len(), 2);
    // three steps write the gradient of s, all of them before s has its turn
    let first_turn = steps
        .iter()
        .position(|step| matches!(step, Step::Scale { from, .. } if *from == s))
        .unwrap();
    let writes: Vec<usize> = (0..steps.len())
        .filter(|i| match steps[*i] {
            Step::Pass { into, .. } | Step::Scale { into, .. } | Step::Gate { into, .. } => into == s,
            _ => false,
        })
        .collect();
    assert_eq!(writes.len(), 3);
    assert!(writes.iter().all(|i| *i < first_turn));
    let (_, grad) = differentiate(&tape, &root);
    // d(2s)/ds + d(relu s)/ds + d(s + a)/ds
    assert_eq!(grad[s.index], 2.0 + 1.0 + 1.0);
    assert_eq!(grad[b.index], 4.0 * 3.0);
    assert_eq!(grad[a.index], 4.0 * 5.0 + 1.0);
}

#[test]
fn second_pass_adds_to_the_gradients() {
    let mut tape = Tape::new();
    let a = lit(&mut tape, 2.0);
    let b = lit(&mut tape, -3.0);
    let y = a.mul(&mut tape, &b);
    let data = evaluate(&tape);
    let steps = y.backward(&tape);
    let mut grad = vec![0.0; data.len()];
    run(&steps, &data, &mut grad);
    let once = grad.clone();
    assert_eq!(y.backward(&tape), steps);
    run(&steps, &data, &mut grad);
    assert_eq!(grad[a.index], 2.0 * once[a.index]);
    assert_eq!(grad[b.index], 2.0 * once[b.index]);
    assert_eq!(grad[a.index], -6.0);
    assert_eq!(grad[b.index], 4.0);
    // the seed is set, not added to
    assert_eq!(grad[y.index], 1.0);
}

#[test]
fn second_pass_reads_what_the_first_left() {
    // z = (x * 2) * 3
    let mut tape = Tape::new();
    let x = lit(&mut tape, 1.0);
    let two = lit(&mut tape, 2.0);
    let y = x.mul(&mut tape, &two);
    let three = lit(&mut tape, 3.0);
    let z = y.mul(&mut tape, &three);
    let data = evaluate(&tape);
    let steps = z.backward(&tape);
    let mut grad = vec![0.0; data.len()];
    run(&steps, &data, &mut grad);
    assert_eq!(grad[y.index], 3.0);
    assert_eq!(grad[x.index], 6.0);
    run(&steps, &data, &mut grad);
    assert_eq!(grad[z.index], 1.0);
    assert_eq!(grad[y.index], 6.0);
    assert_eq!(grad[x.index], 18.0);
}

#[test]
fn backward_of_a_literal_only_seeds_it() {
    let mut tape = Tape::new();
    let x = lit(&mut tape, 3.0);
    let steps = x.backward(&tape);
    assert_eq!(steps, vec![Step::Seed { node: x }]);
    let (_, grad) = differentiate(&tape, &x);
    assert_eq!(grad, vec![1.0]);
}

#[test]
fn backward_leaves_nodes_outside_the_root_alone() {
    let mut tape = Tape::new();
    let a = lit(&mut tape, 2.0);
    let b = lit(&mut tape, 4.0);
    let c = a.mul(&mut tape, &b);
    let d = c.relu(&mut tape);
    let steps = c.backward(&tape);
    assert_eq!(
        steps,
        vec![
            Step::Seed { node: c },
            Step::Scale { from: c, into: a, by: b },
            Step::Scale { from: c, into: b, by: a },
        ]
    );
    let (_, grad) = differentiate(&tape, &c);
    assert_eq!(grad[d.index], 0.0);
}

#[test]
fn operand_used_twice_by_one_node_gets_both_shares() {
    let mut tape = Tape::new();
    let x = lit(&mut tape, 3.0);
    let y = x.mul(&mut tape, &x);
    let z = y.add(&mut tape, &y);
    let steps = z.backward(&tape);
    assert_eq!(
        steps,
        vec![
            Step::Seed { node: z },
            Step::Pass { from: z, into: y },
            Step::Pass { from: z, into: y },
            Step::Scale { from: y, into: x, by: x },
            Step::Scale { from: y, into: x, by: x },
        ]
    );
    let (data, grad) = differentiate(&tape, &z);
    assert_eq!(data[z.index], 18.0);
    assert_eq!(grad[y.index], 2.0);
    assert_eq!(grad[x.index], 12.0);
}

#[test]
fn negate_is_a_product_with_minus_one() {
    let mut tape = Tape::new();
    let x = lit(&mut tape, 4.0);
    let y = x.neg(&mut tape);
    assert_eq!(tape.len(), 3);
    let node = tape.get(&y);
    assert_eq!(node._op, Some(Op::Mul));
    assert_eq!(node.data, None);
    assert_eq!(node._prev.len(), 2);
    assert_eq!(node._prev[0], x);
    let minus_one = node._prev[1];
    assert_eq!(tape.get(&minus_one)._op, None);
    assert_eq!(tape.get(&minus_one).data, Some((-1.0f64).to_bits()));
    assert_eq!(tape.get(&minus_one).data, Some(rustygrad::graph::MINUS_ONE));
    let (data, grad) = differentiate(&tape, &y);
    assert_eq!(data[y.index], -4.0);
    assert_eq!(grad[x.index], -1.0);
}

#[test]
fn subtract_is_a_sum_with_the_negation() {
    let mut tape = Tape::new();
    let a = lit(&mut tape, 7.0);
    let b = lit(&mut tape, 2.5);
    let y = a.sub(&mut tape, &b);
    assert_eq!(tape.len(), 5);
    let node = tape.get(&y);
    assert_eq!(node._op, Some(Op::Add));
    assert_eq!(node._prev[0], a);
    let negated = node._prev[1];
    assert_eq!(tape.get(&negated)._op, Some(Op::Mul));
    assert_eq!(tape.get(&negated)._prev[0], b);
    let (data, grad) = differentiate(&tape, &y);
    assert_eq!(data[y.index], 4.5);
    assert_eq!(grad[a.index], 1.0);
    assert_eq!(grad[b.index], -1.0);
}

#[test]
fn divide_is_a_product_with_the_inverse() {
    let mut tape = Tape::new();
    let a = lit(&mut tape, 6.0);
    let b = lit(&mut tape, 4.0);
    let y = a.div(&mut tape, &b);
    assert_eq!(tape.len(), 5);
    let node = tape.get(&y);
    assert_eq!(node._op, Some(Op::Mul));
    assert_eq!(node._prev[0], a);
    let inverse = node._prev[1];
    assert_eq!(tape.get(&inverse)._op, Some(Op::Pow));
    assert_eq!(tape.get(&inverse)._prev[0], b);
    let exponent = tape.get(&inverse)._prev[1];
    assert_eq!(tape.get(&exponent).data, Some((-1.0f64).to_bits()));
    let (data, grad) = differentiate(&tape, &y);
    assert_eq!(data[y.index], 1.5);
    assert_eq!(grad[a.index], 0.25);
    assert_eq!(grad[b.index], -6.0 / 16.0);
}

#[test]
fn root_of_a_negative_number_is_not_a_number() {
    let mut tape = Tape::new();
    let x = lit(&mut tape, -8.0);
    let y = x.pow(&mut tape, (0.5f64).to_bits());
    let one = lit(&mut tape, 1.0);
    let z = y.add(&mut tape, &one);
    let (data, grad) = differentiate(&tape, &z);
    assert!(data[y.index].is_nan());
    assert!(data[z.index].is_nan());
    assert_eq!(grad[y.index], 1.0);
    assert!(grad[x.index].is_nan());
}

#[test]
fn division_by_zero_is_infinite() {
    let mut tape = Tape::new();
    let a = lit(&mut tape, 1.0);
    let b = lit(&mut tape, 0.0);
    let y = a.div(&mut tape, &b);
    let data = evaluate(&tape);
    assert!(data[y.index].is_infinite());
}

#[test]
fn operators_leave_their_operands_as_they_were() {
    let mut tape = Tape::new();
    let a = lit(&mut tape, 2.0);
    let b = lit(&mut tape, 3.0);
    let before_a = (tape.get(&a).data, tape.get(&a).uuid, tape.get(&a)._op);
    let before_b = (tape.get(&b).data, tape.get(&b).uuid, tape.get(&b)._op);
    let c = a.add(&mut tape, &b);
    assert_eq!(c.index, 2);
    assert_eq!(tape.len(), 3);
    assert_eq!((tape.get(&a).data, tape.get(&a).uuid, tape.get(&a)._op), before_a);
    assert_eq!((tape.get(&b).data, tape.get(&b).uuid, tape.get(&b)._op), before_b);
    assert!(tape.get(&a)._prev.is_empty());
    assert_eq!(tape.get(&c)._prev, vec![a, b]);
}

#[test]
fn nodes_with_equal_values_are_distinct() {
    let mut tape = Tape::new();
    let a = lit(&mut tape, 1.0);
    let b = lit(&mut tape, 1.0);
    assert_ne!(a, b);
    assert_eq!(tape.get(&a).data, tape.get(&b).data);
    assert_ne!(tape.get(&a).uuid, tape.get(&b).uuid);
}

#[test]
fn identity_tokens_are_random_uuids() {
    let mut tape = Tape::new();
    let a = lit(&mut tape, 1.0);
    let b = a.relu(&mut tape);
    for v in [a, b] {
        let token = uuid::Uuid::from_u128(tape.get(&v).uuid);
        assert_eq!(token.get_version_num(), 4);
        assert_eq!(token.get_variant(), uuid::Variant::RFC4122);
    }
}

#[test]
fn golden_expression() {
    let mut tape = Tape::new();
    let t = &mut tape;
    let a = lit(t, -4.0);
    let b = lit(t, 2.0);
    // c = a + b
    let mut c = a.add(t, &b);
    // d = a * b + b**3
    let ab = a.mul(t, &b);
    let b3 = b.pow(t, (3.0f64).to_bits());
    let mut d = ab.add(t, &b3);
    // c += c + 1
    let one = lit(t, 1.0);
    let c1 = c.add(t, &one);
    c = c.add(t, &c1);
    // c += 1 + c + (-a)
    let one = lit(t, 1.0);
    let c1 = c.add(t, &one);
    let na = a.neg(t);
    let c2 = c1.add(t, &na);
    c = c.add(t, &c2);
    // d += d * 2 + (b + a).relu()
    let two = lit(t, 2.0);
    let d2 = d.mul(t, &two);
    let ba = b.add(t, &a);
    let r = ba.relu(t);
    let d3 = d2.add(t, &r);
    d = d.add(t, &d3);
    // d += 3 * d + (b - a).relu()
    let three = lit(t, 3.0);
    let d2 = d.mul(t, &three);
    let ba = b.sub(t, &a);
    let r = ba.relu(t);
    let d3 = d2.add(t, &r);
    d = d.add(t, &d3);
    // e = c - d
    let e = c.sub(t, &d);
    // f = e**2
    let f = e.pow(t, (2.0f64).to_bits());
    // g = f / 2.0
    let two = lit(t, 2.0);
    let mut g = f.div(t, &two);
    // g += 10.0 / f
    let ten = lit(t, 10.0);
    let tf = ten.div(t, &f);
    g = g.add(t, &tf);

    let (data, grad) = differentiate(&tape, &g);
    assert!((data[g.index] - 24.7041).abs() < 1e-3);
    assert!((grad[a.index] - 138.8338).abs() < 1e-3);
    assert!((grad[b.index] - 645.5773).abs() < 1e-3);
}
