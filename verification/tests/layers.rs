use microgpt::layers::{dot, linear, rectify, rms_scale, rmsnorm, scaled, softmax, summed, total};
use microgpt::tape::{Op, Tape};

fn params(tape: &mut Tape, n: usize) -> Vec<usize> {
    (0..n).map(|_| tape.param()).collect()
}

fn evaluate(tape: &Tape, params: &[f64]) -> Vec<f64> {
    let mut values = params.to_vec();
    for id in params.len()..tape.len() {
        let inputs = tape.inputs_at(id);
        let x = |k: usize| values[inputs[k]];
        let v = match tape.op_at(id) {
            Op::Const(bits) => f64::from_bits(bits),
            Op::Max => inputs.iter().map(|&i| values[i]).fold(f64::NEG_INFINITY, f64::max),
            Op::Number(n) => n as f64,
            Op::Detach => x(0),
            Op::Quotient => x(0) / x(1),
            Op::Add => x(0) + x(1),
            Op::Mul => x(0) * x(1),
            Op::Neg => -x(0),
            Op::Exp => x(0).exp(),
            Op::Relu => x(0).max(0.0),
            Op::Pow(bits) => x(0).powf(f64::from_bits(bits)),
            other => panic!("{:?}", other),
        };
        values.push(v);
    }
    values
}

fn at(values: &[f64], ids: &[usize]) -> Vec<f64> {
    ids.iter().map(|&i| values[i]).collect()
}

#[test]
fn dot_product_cuts_the_longer_vector() {
    let mut tape = Tape::empty();
    let a = params(&mut tape, 2);
    let b = params(&mut tape, 3);
    let d = dot(&mut tape, &a, &b);
    assert_eq!(evaluate(&tape, &[1.0, 2.0, 10.0, 20.0, 30.0])[d], 50.0);
}

#[test]
fn empty_sums_are_zero() {
    let mut tape = Tape::empty();
    let t = total(&mut tape, &vec![]);
    let d = dot(&mut tape, &vec![], &vec![]);
    let values = evaluate(&tape, &[]);
    assert_eq!(values[t], 0.0);
    assert_eq!(values[d], 0.0);
}

#[test]
fn total_adds_from_the_left() {
    let mut tape = Tape::empty();
    let a = params(&mut tape, 3);
    let t = total(&mut tape, &a);
    assert_eq!(evaluate(&tape, &[0.1, 0.2, 0.3])[t], ((0.0 + 0.1) + 0.2) + 0.3);
}

#[test]
fn linear_layer_is_a_matrix_product() {
    let mut tape = Tape::empty();
    let x = params(&mut tape, 2);
    let w = vec![params(&mut tape, 2), params(&mut tape, 2), params(&mut tape, 2)];
    let y = linear(&mut tape, &x, &w);
    let values = evaluate(&tape, &[5.0, 7.0, 1.0, 0.0, 0.0, 1.0, 2.0, -1.0]);
    assert_eq!(at(&values, &y), vec![5.0, 7.0, 3.0]);
}

#[test]
fn softmax_of_equal_logits_is_uniform() {
    let mut tape = Tape::empty();
    let l = params(&mut tape, 4);
    let p = softmax(&mut tape, &l);
    assert_eq!(at(&evaluate(&tape, &[3.0; 4]), &p), vec![0.25; 4]);
}

#[test]
fn softmax_weighs_by_exponentials() {
    let mut tape = Tape::empty();
    let l = params(&mut tape, 3);
    let p = softmax(&mut tape, &l);
    let logits = [1.0f64, -2.0, 0.5];
    let got = at(&evaluate(&tape, &logits), &p);
    let sum: f64 = logits.iter().map(|x| x.exp()).sum();
    for i in 0..3 {
        assert!((got[i] - logits[i].exp() / sum).abs() < 1e-15);
    }
    assert!((got.iter().sum::<f64>() - 1.0).abs() < 1e-15);
}

#[test]
fn softmax_stands_large_logits() {
    let mut tape = Tape::empty();
    let l = params(&mut tape, 2);
    let p = softmax(&mut tape, &l);
    let got = at(&evaluate(&tape, &[1e6, 1e6 - 1000.0]), &p);
    assert_eq!(got, vec![1.0, 0.0]);
}

#[test]
fn softmax_of_nothing_is_nothing() {
    let mut tape = Tape::empty();
    assert_eq!(softmax(&mut tape, &vec![]), Vec::<usize>::new());
}

#[test]
fn probabilities_pass_gradients_to_every_logit() {
    let mut tape = Tape::empty();
    let l = params(&mut tape, 3);
    let p = softmax(&mut tape, &l);
    for &probability in &p {
        let order = tape.topological_order(probability);
        for logit in &l {
            assert!(order.contains(logit));
        }
    }
}

#[test]
fn rmsnorm_scales_to_unit_mean_square() {
    let mut tape = Tape::empty();
    let x = params(&mut tape, 2);
    let y = rmsnorm(&mut tape, &x);
    let got = at(&evaluate(&tape, &[3.0, 4.0]), &y);
    let scale = (12.5f64 + 1e-5).powf(-0.5);
    assert_eq!(got, vec![3.0 * scale, 4.0 * scale]);
}

#[test]
fn no_gradient_flows_through_the_scale() {
    let mut tape = Tape::empty();
    let x = params(&mut tape, 2);
    let scale = rms_scale(&mut tape, &x);
    assert_eq!(tape.topological_order(scale), vec![scale]);
    let y = rmsnorm(&mut tape, &x);
    let order = tape.topological_order(y[0]);
    assert!(order.contains(&x[0]));
    assert!(!order.contains(&x[1]));
}

#[test]
fn normalised_values_have_a_mean_square_of_nearly_one() {
    let mut tape = Tape::empty();
    let x = params(&mut tape, 3);
    let y = rmsnorm(&mut tape, &x);
    let got = at(&evaluate(&tape, &[1.0, -2.0, 4.0]), &y);
    let before = 7.0;
    let after = got.iter().map(|v| v * v).sum::<f64>() / 3.0;
    assert!((after - before / (before + 1e-5)).abs() < 1e-14);
}

#[test]
fn vectors_add_scale_and_rectify() {
    let mut tape = Tape::empty();
    let a = params(&mut tape, 2);
    let b = params(&mut tape, 3);
    let s = summed(&mut tape, &a, &b);
    let r = rectify(&mut tape, &s);
    let k = scaled(&mut tape, &a, b[2]);
    let values = evaluate(&tape, &[1.0, 2.0, -4.0, 5.0, 10.0]);
    assert_eq!(at(&values, &s), vec![-3.0, 7.0]);
    assert_eq!(at(&values, &r), vec![0.0, 7.0]);
    assert_eq!(at(&values, &k), vec![10.0, 20.0]);
}
