use microgpt::autograd::{GradStep, LocalGrad};
use microgpt::tape::{Op, Tape, MINUS_HALF, MINUS_ONE, MINUS_TWO, ONE, TWO, ZERO};

fn apply(op: Op, inputs: &[usize], values: &[f64]) -> f64 {
    let x = |k: usize| values[inputs[k]];
    match op {
        Op::Param(_) => panic!("no value"),
        Op::Const(bits) => f64::from_bits(bits),
        Op::Number(n) => n as f64,
        Op::Detach => x(0),
        Op::Quotient => x(0) / x(1),
        Op::Root => x(0).sqrt(),
        Op::Cosine => x(0).cos(),
        Op::IntPow(n) => x(0).powi(n as i32),
        Op::Max => inputs.iter().map(|&i| values[i]).fold(f64::NEG_INFINITY, f64::max),
        Op::Add => x(0) + x(1),
        Op::Mul => x(0) * x(1),
        Op::Neg => -x(0),
        Op::Exp => x(0).exp(),
        Op::Log => x(0).ln(),
        Op::Relu => x(0).max(0.0),
        Op::Pow(bits) => x(0).powf(f64::from_bits(bits)),
    }
}

fn evaluate(tape: &Tape, params: &[f64]) -> Vec<f64> {
    let mut values = params.to_vec();
    for id in params.len()..tape.len() {
        let v = apply(tape.op_at(id), tape.inputs_at(id), &values);
        values.push(v);
    }
    values
}

fn slope(local: LocalGrad, values: &[f64]) -> f64 {
    match local {
        LocalGrad::One => 1.0,
        LocalGrad::MinusOne => -1.0,
        LocalGrad::Value(i) => values[i],
        LocalGrad::Reciprocal(i) => 1.0 / values[i],
        LocalGrad::Step(i) => {
            if values[i] > 0.0 {
                1.0
            } else {
                0.0
            }
        }
        LocalGrad::Power(i, bits) => {
            let n = f64::from_bits(bits);
            n * values[i].powf(n - 1.0)
        }
    }
}

fn gradients(steps: &[GradStep], root: usize, values: &[f64]) -> Vec<f64> {
    let mut grads = vec![0.0; values.len()];
    grads[root] = 1.0;
    for s in steps {
        grads[s.child] += slope(s.local, values) * grads[s.parent];
    }
    grads
}

#[test]
fn a_new_tape_is_empty() {
    assert_eq!(Tape::empty().len(), 0);
}

#[test]
fn positions_count_up_and_parameters_carry_theirs() {
    let mut tape = Tape::empty();
    assert_eq!(tape.param(), 0);
    assert_eq!(tape.constant(ZERO), 1);
    assert_eq!(tape.param(), 2);
    assert_eq!(tape.op_at(0), Op::Param(0));
    assert_eq!(tape.op_at(1), Op::Const(0));
    assert_eq!(tape.op_at(2), Op::Param(2));
    assert_eq!(tape.len(), 3);
}

#[test]
fn constants_have_the_right_bits() {
    assert_eq!(f64::from_bits(ZERO), 0.0);
    assert_eq!(f64::from_bits(ONE), 1.0);
    assert_eq!(f64::from_bits(TWO), 2.0);
    assert_eq!(f64::from_bits(MINUS_ONE), -1.0);
    assert_eq!(f64::from_bits(MINUS_TWO), -2.0);
    assert_eq!(f64::from_bits(MINUS_HALF), -0.5);
}

#[test]
fn subtraction_adds_the_negated() {
    let mut tape = Tape::empty();
    let a = tape.param();
    let b = tape.param();
    let d = tape.sub(a, b);
    assert_eq!(d, 3);
    assert_eq!(tape.op_at(2), Op::Neg);
    assert_eq!(tape.inputs_at(2), &vec![1]);
    assert_eq!(tape.op_at(3), Op::Add);
    assert_eq!(tape.inputs_at(3), &vec![0, 2]);
    assert_eq!(evaluate(&tape, &[7.0, 2.5])[d], 4.5);
}

#[test]
fn division_multiplies_by_the_inverse_power() {
    let mut tape = Tape::empty();
    let a = tape.param();
    let b = tape.param();
    let q = tape.div(a, b);
    assert_eq!(tape.op_at(2), Op::Pow(MINUS_ONE));
    assert_eq!(tape.op_at(q), Op::Mul);
    assert_eq!(tape.inputs_at(q), &vec![0, 2]);
    assert_eq!(evaluate(&tape, &[3.0, 4.0])[q], 0.75);
}

#[test]
fn truncation_keeps_the_front() {
    let mut tape = Tape::empty();
    let a = tape.param();
    let _ = tape.exp(a);
    tape.truncate(1);
    assert_eq!(tape.len(), 1);
    assert_eq!(tape.op_at(0), Op::Param(0));
}

#[test]
fn topological_order_has_every_value_once_after_its_inputs() {
    let mut tape = Tape::empty();
    let a = tape.param();
    let b = tape.param();
    let unused = tape.param();
    let p = tape.mul(a, b);
    let s = tape.add(p, a);
    let r = tape.mul(s, p);
    let order = tape.topological_order(r);
    assert_eq!(order.len(), 5);
    assert!(!order.contains(&unused));
    assert_eq!(order[4], r);
    for (at, &id) in order.iter().enumerate() {
        assert_eq!(order.iter().filter(|&&x| x == id).count(), 1);
        for input in tape.inputs_at(id) {
            assert!(order.iter().position(|x| x == input).unwrap() < at);
        }
    }
}

#[test]
fn last_inputs_are_visited_first() {
    let mut tape = Tape::empty();
    let a = tape.param();
    let b = tape.param();
    let s = tape.add(a, b);
    assert_eq!(tape.topological_order(s), vec![b, a, s]);
}

#[test]
fn sweep_of_a_product() {
    let mut tape = Tape::empty();
    let a = tape.param();
    let b = tape.param();
    let p = tape.mul(a, b);
    let steps = tape.backward(p);
    assert_eq!(
        steps,
        vec![
            GradStep { parent: p, child: a, local: LocalGrad::Value(b) },
            GradStep { parent: p, child: b, local: LocalGrad::Value(a) },
        ]
    );
}

#[test]
fn a_value_used_twice_collects_both_gradients() {
    let mut tape = Tape::empty();
    let a = tape.param();
    let sq = tape.mul(a, a);
    let sum = tape.add(sq, a);
    let steps = tape.backward(sum);
    let values = evaluate(&tape, &[3.0]);
    assert_eq!(values[sum], 12.0);
    assert_eq!(gradients(&steps, sum, &values)[a], 7.0);
}

#[test]
fn local_derivatives_of_all_operations() {
    let mut tape = Tape::empty();
    let a = tape.param();
    let e = tape.exp(a);
    let l = tape.log(a);
    let r = tape.relu(a);
    let n = tape.neg(a);
    let p = tape.pow(a, 3.0f64.to_bits());
    let x = 2.0f64;
    let values = evaluate(&tape, &[x]);
    let slope_of = |id: usize| gradients(&tape.backward(id), id, &values)[a];
    assert_eq!(slope_of(e), x.exp());
    assert_eq!(slope_of(l), 0.5);
    assert_eq!(slope_of(r), 1.0);
    assert_eq!(slope_of(n), -1.0);
    assert_eq!(slope_of(p), 12.0);
    assert_eq!(slope_of(a), 1.0);
}

#[test]
fn rectifier_passes_nothing_at_and_below_zero() {
    let mut tape = Tape::empty();
    let a = tape.param();
    let r = tape.relu(a);
    let steps = tape.backward(r);
    for x in [0.0, -1.0] {
        let values = evaluate(&tape, &[x]);
        assert_eq!(values[r], 0.0);
        assert_eq!(gradients(&steps, r, &values)[a], 0.0);
    }
}

#[test]
fn no_gradient_flows_through_the_largest() {
    let mut tape = Tape::empty();
    let a = tape.param();
    let b = tape.param();
    let both = vec![a, b];
    let m = tape.max_of(&both);
    let d = tape.sub(a, m);
    let steps = tape.backward(d);
    let values = evaluate(&tape, &[1.0, 4.0]);
    assert_eq!(values[d], -3.0);
    let grads = gradients(&steps, d, &values);
    assert_eq!(grads[a], 1.0);
    assert_eq!(grads[b], 0.0);
    assert_eq!(grads[m], -1.0);
}

#[test]
fn largest_of_nothing_is_negative_infinity() {
    let mut tape = Tape::empty();
    let none = vec![];
    let m = tape.max_of(&none);
    assert_eq!(evaluate(&tape, &[])[m], f64::NEG_INFINITY);
}

#[test]
fn operations_without_gradients() {
    let mut tape = Tape::empty();
    let a = tape.param();
    let b = tape.param();
    let n = tape.number(7);
    let q = tape.quotient(a, b);
    let r = tape.root(b);
    let c = tape.cosine(b);
    let p = tape.int_pow(a, 3);
    let d = tape.detach(a);
    let values = evaluate(&tape, &[3.0, 4.0]);
    assert_eq!(values[n], 7.0);
    assert_eq!(values[q], 0.75);
    assert_eq!(values[r], 2.0);
    assert_eq!(values[c], 4.0f64.cos());
    assert_eq!(values[p], 27.0);
    assert_eq!(values[d], 3.0);
    for id in [n, q, r, c, p, d] {
        assert_eq!(tape.backward(id), vec![]);
        assert_eq!(tape.topological_order(id), vec![id]);
    }
}

#[test]
fn evaluation_needs_one_pass() {
    let mut tape = Tape::empty();
    let a = tape.param();
    let b = tape.param();
    let p = tape.mul(a, b);
    let s = tape.sub(p, a);
    let d = tape.div(s, b);
    assert_eq!(evaluate(&tape, &[6.0, 4.0])[d], (6.0 * 4.0 - 6.0) * 0.25);
}

#[test]
fn operations_read_just_their_inputs() {
    let mut tape = Tape::empty();
    let a = tape.param();
    let b = tape.param();
    let made = [
        (tape.add(a, b), Op::Add, vec![a, b]),
        (tape.mul(b, a), Op::Mul, vec![b, a]),
        (tape.neg(a), Op::Neg, vec![a]),
        (tape.exp(a), Op::Exp, vec![a]),
        (tape.log(a), Op::Log, vec![a]),
        (tape.relu(b), Op::Relu, vec![b]),
        (tape.pow(b, MINUS_HALF), Op::Pow(MINUS_HALF), vec![b]),
    ];
    for (k, (id, op, inputs)) in made.into_iter().enumerate() {
        assert_eq!(id, 2 + k);
        assert_eq!(tape.op_at(id), op);
        assert_eq!(tape.inputs_at(id), &inputs);
    }
}

#[test]
fn gradients_do_not_depend_on_the_layout() {
    let grads_of = |swapped: bool| {
        let mut tape = Tape::empty();
        let a = tape.param();
        let b = tape.param();
        let (p, q) = if swapped {
            let q = tape.exp(b);
            let _ = tape.exp(a);
            (tape.mul(a, b), q)
        } else {
            let p = tape.mul(a, b);
            (p, tape.exp(b))
        };
        let s = tape.add(p, q);
        let values = evaluate(&tape, &[3.0, 0.5]);
        let grads = gradients(&tape.backward(s), s, &values);
        (grads[a], grads[b])
    };
    assert_eq!(grads_of(false), (0.5, 3.0 + 0.5f64.exp()));
    assert_eq!(grads_of(true), grads_of(false));
}

#[test]
fn a_sweep_adds_to_the_gradients_that_are_there() {
    let mut tape = Tape::empty();
    let a = tape.param();
    let b = tape.param();
    let unused = tape.param();
    let p = tape.mul(a, b);
    let s = tape.add(p, a);
    let values = evaluate(&tape, &[3.0, 4.0, 5.0]);
    let mut grads = vec![10.0, 20.0, 30.0, 40.0, 50.0];
    grads[s] = 1.0;
    for step in tape.backward(s) {
        grads[step.child] += slope(step.local, &values) * grads[step.parent];
    }
    assert_eq!(grads[s], 1.0);
    assert_eq!(grads[p], 40.0 + 1.0);
    assert_eq!(grads[a], 10.0 + 1.0 + 4.0 * 41.0);
    assert_eq!(grads[b], 20.0 + 3.0 * 41.0);
    assert_eq!(grads[unused], 30.0);
}
