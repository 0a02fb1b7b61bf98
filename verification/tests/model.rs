use microgpt::autograd::{GradStep, LocalGrad};
use microgpt::checkpoint::{
    is_loadable, load_model, parse_model, save_model, shape, sorted_names,
};
use microgpt::config::{
    BETA1, BETA2, BLOCK_SIZE, EPS_ADAM, EPS_NORM, HEAD_DIM, INITIAL_MOMENT, INIT_STD,
    LEARNING_RATE, LEAST_DRAW, NUM_SAMPLES, NUM_STEPS, N_EMBD, N_HEAD, N_LAYER, PI, SAMPLING_SEED, TEMPERATURE, TRAINING_SEED,
};
use microgpt::gpt::{attention, gpt};
use microgpt::optimizer::{adam_update, initial_value, normal, rate, without_bias};
use microgpt::params::{
    count_entries, count_params, init_fits, init_params, layer_name, make_matrix, Model, StateDict,
};
use microgpt::ready::is_usable;
use microgpt::sampler::{remainders, weighted_choice, Sampler};
use microgpt::tape::{Op, Tape};
use microgpt::tokenizer::Tokenizer;
use microgpt::train::{empty_cache, sequence_loss, train_step, training_tokens, Schedule};
use rand::rngs::StdRng;
use rand::{Rng, SeedableRng};

fn apply(op: Op, inputs: &[usize], values: &[f64]) -> f64 {
    let x = |k: usize| values[inputs[k]];
    match op {
        Op::Param(_) => panic!("no value"),
        Op::Const(bits) => f64::from_bits(bits),
        Op::Number(n) => n as f64,
        Op::Detach => x(0),
        Op::Quotient => x(0) / x(1),
        Op::Root => x(0).sqrt(),
        Op::Cosine => x(0).cos(),
        Op::IntPow(n) => x(0).powi(n as i32),
        Op::Max => inputs.iter().map(|&i| values[i]).fold(f64::NEG_INFINITY, f64::max),
        Op::Add => x(0) + x(1),
        Op::Mul => x(0) * x(1),
        Op::Neg => -x(0),
        Op::Exp => x(0).exp(),
        Op::Log => x(0).ln(),
        Op::Relu => x(0).max(0.0),
        Op::Pow(bits) => x(0).powf(f64::from_bits(bits)),
    }
}

fn evaluate(tape: &Tape, values: &mut Vec<f64>) {
    for id in values.len()..tape.len() {
        let v = apply(tape.op_at(id), tape.inputs_at(id), values);
        values.push(v);
    }
}

fn gradients(steps: &[GradStep], root: usize, values: &[f64]) -> Vec<f64> {
    let mut grads = vec![0.0; values.len()];
    grads[root] = 1.0;
    for s in steps {
        let slope = match s.local {
            LocalGrad::One => 1.0,
            LocalGrad::MinusOne => -1.0,
            LocalGrad::Value(i) => values[i],
            LocalGrad::Reciprocal(i) => 1.0 / values[i],
            LocalGrad::Step(i) => (values[i] > 0.0) as u8 as f64,
            LocalGrad::Power(i, bits) => {
                let n = f64::from_bits(bits);
                n * values[i].powf(n - 1.0)
            }
        };
        grads[s.child] += slope * grads[s.parent];
    }
    grads
}

fn docs() -> Vec<String> {
    ["emma", "ava", "mia", "christopherjohnathan"].iter().map(|s| s.to_string()).collect()
}

fn random_values(n: usize) -> Vec<f64> {
    let mut rng = StdRng::seed_from_u64(5);
    (0..n).map(|_| (rng.gen::<f64>() - 0.5) * 0.6).collect()
}

// A forward pass in plain numbers.

fn numbers(sd: &StateDict, name: &str, values: &[f64]) -> Vec<Vec<f64>> {
    let m = sd.get(name).unwrap();
    m.iter().map(|row| row.iter().map(|&i| values[i]).collect()).collect()
}

fn plain_linear(x: &[f64], w: &[Vec<f64>]) -> Vec<f64> {
    w.iter().map(|row| row.iter().zip(x).fold(0.0, |acc, (a, b)| acc + a * b)).collect()
}

fn plain_softmax(l: &[f64]) -> Vec<f64> {
    let max = l.iter().cloned().fold(f64::NEG_INFINITY, f64::max);
    let exps: Vec<f64> = l.iter().map(|x| (x - max).exp()).collect();
    let total: f64 = exps.iter().sum();
    exps.iter().map(|e| e / total).collect()
}

fn plain_rmsnorm(x: &[f64]) -> Vec<f64> {
    let ms = x.iter().map(|v| v * v).sum::<f64>() / x.len() as f64;
    let scale = (ms + 1e-5).powf(-0.5);
    x.iter().map(|v| v * scale).collect()
}

fn plain_sum(a: &[f64], b: &[f64]) -> Vec<f64> {
    a.iter().zip(b).map(|(x, y)| x + y).collect()
}

fn plain_gpt(
    token: usize,
    pos: usize,
    keys: &mut Vec<Vec<Vec<f64>>>,
    vals: &mut Vec<Vec<Vec<f64>>>,
    sd: &StateDict,
    values: &[f64],
) -> Vec<f64> {
    let m = |name: &str| numbers(sd, name, values);
    let mut x = plain_rmsnorm(&plain_sum(&m("wte")[token], &m("wpe")[pos]));
    for li in 0..N_LAYER {
        let part = |p: &str| m(&format!("layer{}.{}", li, p));
        let res = x.clone();
        x = plain_rmsnorm(&x);
        let q = plain_linear(&x, &part("attn_wq"));
        keys[li].push(plain_linear(&x, &part("attn_wk")));
        vals[li].push(plain_linear(&x, &part("attn_wv")));
        let mut heads = vec![];
        for h in 0..N_HEAD {
            let range = h * HEAD_DIM..(h + 1) * HEAD_DIM;
            let scale = 1.0 / (HEAD_DIM as f64).sqrt();
            let logits: Vec<f64> = keys[li]
                .iter()
                .map(|k| {
                    let a = &q[range.clone()];
                    let b = &k[range.clone()];
                    a.iter().zip(b).map(|(x, y)| x * y).sum::<f64>() * scale
                })
                .collect();
            let weights = plain_softmax(&logits);
            for j in range {
                heads.push(weights.iter().zip(&vals[li]).map(|(w, v)| w * v[j]).sum());
            }
        }
        x = plain_sum(&plain_linear(&heads, &part("attn_wo")), &res);
        let res = x.clone();
        x = plain_linear(&plain_rmsnorm(&x), &part("mlp_fc1"));
        x = x.iter().map(|v| v.max(0.0)).collect();
        x = plain_sum(&plain_linear(&x, &part("mlp_fc2")), &res);
    }
    plain_linear(&x, &m("lm_head"))
}

fn plain_loss(tokens: &[usize], sd: &StateDict, values: &[f64]) -> f64 {
    let n = BLOCK_SIZE.min(tokens.len() - 1);
    let mut keys = vec![vec![]; N_LAYER];
    let mut vals = vec![vec![]; N_LAYER];
    let mut sum = 0.0;
    for pos in 0..n {
        let logits = plain_gpt(tokens[pos], pos, &mut keys, &mut vals, sd, values);
        sum -= plain_softmax(&logits)[tokens[pos + 1]].ln();
    }
    sum / n as f64
}

#[test]
fn sizes_of_the_model_and_the_run() {
    assert_eq!((N_LAYER, N_EMBD, BLOCK_SIZE, N_HEAD, HEAD_DIM), (1, 16, 16, 4, 4));
    assert_eq!((NUM_STEPS, NUM_SAMPLES), (1000, 20));
    assert_eq!((TRAINING_SEED, SAMPLING_SEED), (42, 1337));
}

#[test]
fn a_new_model_has_a_parameter_for_every_entry() {
    let model = init_params(27);
    assert_eq!(count_params(&model.params), 4192);
    assert_eq!(model.tape.len(), 4192);
    for id in 0..model.tape.len() {
        assert_eq!(model.tape.op_at(id), Op::Param(id));
    }
}

#[test]
fn a_new_model_lays_out_its_matrices_in_order() {
    let model = init_params(3);
    let expected = [
        ("wte", 3, 16, 0),
        ("wpe", 16, 16, 48),
        ("lm_head", 3, 16, 304),
        ("layer0.attn_wq", 16, 16, 352),
        ("layer0.attn_wk", 16, 16, 608),
        ("layer0.attn_wv", 16, 16, 864),
        ("layer0.attn_wo", 16, 16, 1120),
        ("layer0.mlp_fc1", 64, 16, 1376),
        ("layer0.mlp_fc2", 16, 64, 2400),
    ];
    for (name, rows, cols, start) in expected {
        let m = model.params.get(name).unwrap();
        assert_eq!(m.len(), rows, "{}", name);
        for r in 0..rows {
            let row: Vec<usize> = (0..cols).map(|c| start + r * cols + c).collect();
            assert_eq!(m[r], row, "{}", name);
        }
    }
    assert!(model.params.get("wq").is_none());
}

#[test]
fn a_new_model_can_be_used() {
    let model = init_params(5);
    assert!(is_usable(&model.params, 5));
    assert!(!is_usable(&model.params, 6));
    assert!(!is_usable(&StateDict::new(), 5));
}

#[test]
fn the_size_of_a_new_model_must_fit() {
    assert!(init_fits(27));
    assert!(init_fits(0x110001));
    assert!(!init_fits(usize::MAX));
    assert!(!init_fits(usize::MAX / 32));
}

#[test]
fn matrices_are_replaced_by_name() {
    let mut sd = StateDict::new();
    sd.insert("a".to_string(), vec![vec![1, 2]]);
    sd.insert("b".to_string(), vec![vec![3], vec![4, 5]]);
    assert_eq!(count_params(&sd), 5);
    sd.insert("a".to_string(), vec![vec![9]]);
    assert_eq!(count_params(&sd), 4);
    assert_eq!(sd.matrix("a"), &vec![vec![9]]);
    assert_eq!(count_entries(sd.matrix("b")), 3);
}

#[test]
fn a_replaced_matrix_keeps_its_place() {
    let mut sd = StateDict::new();
    sd.insert("b".to_string(), vec![vec![1]]);
    sd.insert("a".to_string(), vec![vec![2]]);
    sd.insert("b".to_string(), vec![vec![3, 4]]);
    assert_eq!(sd.names, vec!["b", "a"]);
    assert_eq!(sd.mats, vec![vec![vec![3, 4]], vec![vec![2]]]);
}

#[test]
fn layers_name_their_parts() {
    assert_eq!(layer_name(0, "attn_wq"), "layer0.attn_wq");
    assert_eq!(layer_name(12, "mlp_fc1"), "layer12.mlp_fc1");
}

#[test]
fn new_matrices_take_new_parameters() {
    let mut tape = Tape::empty();
    let _ = tape.param();
    assert_eq!(make_matrix(&mut tape, 2, 3), vec![vec![1, 2, 3], vec![4, 5, 6]]);
    assert_eq!(make_matrix(&mut tape, 0, 3), Vec::<Vec<usize>>::new());
    assert_eq!(tape.len(), 7);
}

#[test]
fn attention_to_one_position_is_its_value() {
    let mut tape = Tape::empty();
    let q: Vec<usize> = (0..N_EMBD).map(|_| tape.param()).collect();
    let k: Vec<usize> = (0..N_EMBD).map(|_| tape.param()).collect();
    let v: Vec<usize> = (0..N_EMBD).map(|_| tape.param()).collect();
    let mut values = random_values(tape.len());
    let out = attention(&mut tape, &q, &vec![k], &vec![v.clone()]);
    evaluate(&tape, &mut values);
    for j in 0..N_EMBD {
        assert_eq!(values[out[j]], values[v[j]]);
    }
}

#[test]
fn logits_agree_with_plain_numbers() {
    let mut model = init_params(6);
    let mut values = random_values(model.tape.len());
    let (mut k, mut v) = (empty_cache(), empty_cache());
    let (mut pk, mut pv) = (vec![vec![]; N_LAYER], vec![vec![]; N_LAYER]);
    for (pos, token) in [5, 2, 0, 2].into_iter().enumerate() {
        let ids = gpt(&mut model.tape, token, pos, &mut k, &mut v, &model.params);
        evaluate(&model.tape, &mut values);
        let expected = plain_gpt(token, pos, &mut pk, &mut pv, &model.params, &values);
        assert_eq!(ids.len(), 6);
        for (id, x) in ids.iter().zip(expected) {
            assert!((values[*id] - x).abs() < 1e-12);
        }
    }
    assert_eq!(k[0].len(), 4);
}

#[test]
fn a_pass_keeps_the_rows_of_the_cache() {
    let mut model = init_params(6);
    let (mut k, mut v) = (empty_cache(), empty_cache());
    k.push(vec![vec![1, 2]]);
    v.push(vec![vec![3]]);
    let _ = gpt(&mut model.tape, 1, 0, &mut k, &mut v, &model.params);
    let (first_key, first_value) = (k[0][0].clone(), v[0][0].clone());
    let _ = gpt(&mut model.tape, 2, 1, &mut k, &mut v, &model.params);
    assert_eq!((k[0].len(), v[0].len()), (2, 2));
    assert_eq!((&k[0][0], &v[0][0]), (&first_key, &first_value));
    assert_eq!((k[0][1].len(), v[0][1].len()), (16, 16));
    assert_eq!((&k[1], &v[1]), (&vec![vec![1, 2]], &vec![vec![3]]));
}

#[test]
fn queries_and_keys_have_no_influence_at_the_first_position() {
    let logits_with = |shift: f64, tokens: &[usize]| {
        let mut model = init_params(6);
        let mut values = random_values(model.tape.len());
        for name in ["layer0.attn_wq", "layer0.attn_wk"] {
            for &id in model.params.get(name).unwrap().iter().flatten() {
                values[id] += shift * (id % 7) as f64;
            }
        }
        let (mut k, mut v) = (empty_cache(), empty_cache());
        let mut logits = vec![];
        for (pos, &token) in tokens.iter().enumerate() {
            logits = gpt(&mut model.tape, token, pos, &mut k, &mut v, &model.params);
        }
        evaluate(&model.tape, &mut values);
        logits.iter().map(|&i| values[i]).collect::<Vec<f64>>()
    };
    assert_eq!(logits_with(0.0, &[4]), logits_with(0.3, &[4]));
    assert_ne!(logits_with(0.0, &[4, 1]), logits_with(0.3, &[4, 1]));
}

#[test]
fn logits_do_not_depend_on_later_tokens() {
    let logits_at_start = |tokens: &[usize]| {
        let mut model = init_params(6);
        let mut values = random_values(model.tape.len());
        let (mut k, mut v) = (empty_cache(), empty_cache());
        let mut found = vec![];
        for (pos, &token) in tokens.iter().enumerate() {
            let ids = gpt(&mut model.tape, token, pos, &mut k, &mut v, &model.params);
            evaluate(&model.tape, &mut values);
            found.push(ids.iter().map(|&i| values[i]).collect::<Vec<f64>>());
        }
        found[..2].to_vec()
    };
    assert_eq!(logits_at_start(&[5, 1, 2]), logits_at_start(&[5, 1, 4, 3]));
    assert_ne!(logits_at_start(&[5, 1, 2]), logits_at_start(&[5, 2, 2]));
}

#[test]
fn loss_agrees_with_plain_numbers() {
    let docs = docs();
    let tok = Tokenizer::new(&docs);
    for doc in &docs {
        let tokens = tok.encode(doc);
        let mut model = init_params(tok.vocab_size);
        let mut values = random_values(model.tape.len());
        let expected = plain_loss(&tokens, &model.params, &values);
        let loss = sequence_loss(&mut model.tape, &model.params, &tokens);
        evaluate(&model.tape, &mut values);
        assert!((values[loss] - expected).abs() < 1e-12, "{}", doc);
    }
}

#[test]
fn a_long_document_is_cut_to_the_context() {
    let tok = Tokenizer::new(&docs());
    let long = tok.encode("christopherjohnathan");
    assert!(long.len() - 1 > BLOCK_SIZE);
    let mut other = long.clone();
    other[BLOCK_SIZE + 1] = 0;
    let loss_of = |tokens: &Vec<usize>| {
        let mut model = init_params(tok.vocab_size);
        let mut values = random_values(model.tape.len());
        let loss = sequence_loss(&mut model.tape, &model.params, tokens);
        evaluate(&model.tape, &mut values);
        values[loss]
    };
    assert_eq!(loss_of(&long), loss_of(&other));
    other[BLOCK_SIZE] = 1;
    assert_ne!(loss_of(&long), loss_of(&other));
}

#[test]
fn a_document_cut_to_the_context_has_the_same_loss() {
    let tok = Tokenizer::new(&docs());
    let loss_of = |doc: &str| {
        let mut model = init_params(tok.vocab_size);
        let mut values = random_values(model.tape.len());
        let loss = sequence_loss(&mut model.tape, &model.params, &tok.encode(doc));
        evaluate(&model.tape, &mut values);
        values[loss]
    };
    let long = "christopherjohnathan";
    assert_eq!(loss_of(long), loss_of(&long[..BLOCK_SIZE]));
    assert_ne!(loss_of(long), loss_of(&long[..BLOCK_SIZE - 1]));
}

#[test]
fn zero_weights_give_a_uniform_loss() {
    let tok = Tokenizer::new(&docs());
    let tokens = tok.encode("mia");
    let mut model = init_params(tok.vocab_size);
    let mut values = vec![0.0; model.tape.len()];
    let loss = sequence_loss(&mut model.tape, &model.params, &tokens);
    evaluate(&model.tape, &mut values);
    assert!((values[loss] - (tok.vocab_size as f64).ln()).abs() < 1e-12);
}

#[test]
fn gradients_reach_every_kind_of_parameter_and_match_differences() {
    let tok = Tokenizer::new(&docs());
    let tokens = tok.encode("ava");
    let mut model = init_params(tok.vocab_size);
    let n = model.tape.len();
    let params = random_values(n);
    let step = train_step(&mut model, &tokens);
    let mut values = params.clone();
    evaluate(&model.tape, &mut values);
    let grads = gradients(&step.steps, step.loss, &values);
    let at = |p: &[f64]| {
        let mut values = p.to_vec();
        evaluate(&model.tape, &mut values);
        values[step.loss]
    };
    // The head and the second half of the perceptron are behind no detached scale.
    for name in ["lm_head", "layer0.mlp_fc2"] {
        for &id in &model.params.get(name).unwrap()[1][..3] {
            let (mut up, mut down) = (params.clone(), params.clone());
            up[id] += 1e-5;
            down[id] -= 1e-5;
            let difference = (at(&up) - at(&down)) / 2e-5;
            assert!((difference - grads[id]).abs() < 1e-7, "{}", name);
        }
    }
    let names = sorted_names(&model.params);
    assert_eq!(names.len(), 9);
    for name in names {
        let m = model.params.get(&name).unwrap();
        assert!(m.iter().flatten().any(|&id| grads[id] != 0.0), "{}", name);
    }
}

#[test]
fn gradient_steps_lower_the_loss() {
    let docs = docs();
    let tok = Tokenizer::new(&docs);
    let mut model = init_params(tok.vocab_size);
    let n = model.tape.len();
    let mut values = random_values(n);
    let mut losses = vec![];
    for step in [0, 4, 8, 12] {
        let tokens = training_tokens(&docs, &tok, step);
        assert_eq!(tokens, tok.encode("emma"));
        let made = train_step(&mut model, &tokens);
        evaluate(&model.tape, &mut values);
        losses.push(values[made.loss]);
        let grads = gradients(&made.steps, made.loss, &values);
        model.tape.truncate(n);
        values.truncate(n);
        for i in 0..n {
            values[i] -= 0.05 * grads[i];
        }
        assert_eq!(model.tape.len(), n);
    }
    assert!(losses[3] < losses[0]);
}

#[test]
fn documents_take_turns() {
    let docs = docs();
    let tok = Tokenizer::new(&docs);
    assert_eq!(training_tokens(&docs, &tok, 1), tok.encode("ava"));
    assert_eq!(training_tokens(&docs, &tok, 6), tok.encode("mia"));
}

#[test]
fn training_has_so_many_steps() {
    let docs = docs();
    let tok = Tokenizer::new(&docs);
    let mut schedule = Schedule::new();
    let mut expected = 0;
    while let Some((step, tokens)) = schedule.next_step(&docs, &tok) {
        assert_eq!(step, expected);
        assert_eq!(tokens, tok.encode(&docs[step % docs.len()]));
        expected += 1;
    }
    assert_eq!(expected, NUM_STEPS);
    assert!(schedule.next_step(&docs, &tok).is_none());
    assert_eq!(schedule.begun, NUM_STEPS);
}

// The optimizer.

#[test]
fn numbers_that_training_goes_by() {
    let numbers = [
        (LEARNING_RATE, 0.01),
        (BETA1, 0.85),
        (BETA2, 0.99),
        (EPS_ADAM, 1e-8),
        (EPS_NORM, 1e-5),
        (TEMPERATURE, 0.5),
        (INIT_STD, 0.08),
        (LEAST_DRAW, 1e-15),
        (INITIAL_MOMENT, 0.0),
        (PI, std::f64::consts::PI),
    ];
    for (bits, value) in numbers {
        assert_eq!(f64::from_bits(bits), value);
    }
}

#[test]
fn updates_agree_with_plain_numbers() {
    let (mut x, mut m, mut v) = (0.3f64, 0.0f64, 0.0f64);
    for (step, g) in [0.5f64, -0.25, 0.0, 2.0].into_iter().enumerate() {
        let mut tape = Tape::empty();
        let ids: Vec<usize> = (0..4).map(|_| tape.param()).collect();
        let next = adam_update(&mut tape, ids[0], ids[1], ids[2], ids[3], step);
        let mut values = vec![x, g, m, v];
        evaluate(&tape, &mut values);
        let lr = 0.01 * (1.0 - step as f64 / 1000.0);
        m = 0.85 * m + (1.0 - 0.85) * g;
        v = 0.99 * v + (1.0 - 0.99) * g * g;
        let m_hat = m / (1.0 - 0.85f64.powi((step + 1) as i32));
        let v_hat = v / (1.0 - 0.99f64.powi((step + 1) as i32));
        x -= lr * m_hat / (v_hat.sqrt() + 1e-8);
        assert_eq!((values[next.data], values[next.first], values[next.second]), (x, m, v));
    }
}

#[test]
fn the_first_step_goes_by_the_gradient_alone() {
    let mut tape = Tape::empty();
    let ids: Vec<usize> = (0..4).map(|_| tape.param()).collect();
    let next = adam_update(&mut tape, ids[0], ids[1], ids[2], ids[3], 0);
    let m_hat = without_bias(&mut tape, next.first, BETA1, 0);
    let v_hat = without_bias(&mut tape, next.second, BETA2, 0);
    let mut values = vec![1.0, -3.0, 0.0, 0.0];
    evaluate(&tape, &mut values);
    assert!((values[m_hat] + 3.0).abs() < 1e-12);
    assert!((values[v_hat] - 9.0).abs() < 1e-12);
    assert!((values[next.data] - 1.01).abs() < 1e-9);
}

#[test]
fn a_parameter_without_gradients_stays() {
    let mut tape = Tape::empty();
    let ids: Vec<usize> = (0..4).map(|_| tape.param()).collect();
    let next = adam_update(&mut tape, ids[0], ids[1], ids[2], ids[3], 17);
    let mut values = vec![0.7, 0.0, 0.0, 0.0];
    evaluate(&tape, &mut values);
    assert_eq!((values[next.data], values[next.first], values[next.second]), (0.7, 0.0, 0.0));
}

#[test]
fn the_learning_rate_falls_to_zero() {
    for (step, expected) in [(0, 0.01), (500, 0.005), (1000, 0.0)] {
        let mut tape = Tape::empty();
        let lr = rate(&mut tape, step);
        let mut values = vec![];
        evaluate(&tape, &mut values);
        assert_eq!(values[lr], expected);
    }
}

#[test]
fn initial_values_are_scaled_normal_draws() {
    let mut tape = Tape::empty();
    let (u1, u2) = (tape.param(), tape.param());
    let z = normal(&mut tape, u1, u2);
    let start = initial_value(&mut tape, u1, u2);
    for (a, b) in [(0.5f64, 0.25f64), (0.0, 0.1), (0.9, 0.7)] {
        let mut values = vec![a, b];
        evaluate(&tape, &mut values);
        let expected = (-2.0 * a.max(1e-15).ln()).sqrt() * (2.0 * std::f64::consts::PI * b).cos();
        assert_eq!(values[z], expected);
        assert_eq!(values[start], expected * 0.08);
    }
}

// Checkpoints.

#[test]
fn names_come_in_order() {
    let names = sorted_names(&init_params(2).params);
    assert_eq!(
        names,
        vec![
            "layer0.attn_wk",
            "layer0.attn_wo",
            "layer0.attn_wq",
            "layer0.attn_wv",
            "layer0.mlp_fc1",
            "layer0.mlp_fc2",
            "lm_head",
            "wpe",
            "wte",
        ]
    );
}

#[test]
fn a_checkpoint_has_a_line_for_each_matrix() {
    let mut sd = StateDict::new();
    sd.insert("wte".to_string(), vec![vec![2, 0], vec![1, 1]]);
    sd.insert("bias".to_string(), vec![]);
    let rendered: Vec<String> = ["1e0", "-2.5e-1", "3e7"].iter().map(|s| s.to_string()).collect();
    assert_eq!(save_model(&sd, &rendered), "bias \nwte 3e7 1e0 -2.5e-1 -2.5e-1\n");
    assert_eq!(save_model(&StateDict::new(), &rendered), "");
}

#[test]
fn lines_of_a_checkpoint_are_names_and_words() {
    let parsed = parse_model("wte 1  2\t3\r\nlonely\n\nx 4");
    let plain: Vec<(String, Vec<String>)> =
        parsed.into_iter().map(|line| (line.name, line.words)).collect();
    let line = |name: &str, words: &[&str]| {
        (name.to_string(), words.iter().map(|w| w.to_string()).collect::<Vec<_>>())
    };
    assert_eq!(
        plain,
        vec![line("wte", &["1", "2", "3"]), line("lonely", &[]), line("", &[]), line("x", &["4"])]
    );
}

#[test]
fn names_call_for_shapes() {
    assert_eq!(shape("wte", 27), (27, 16));
    assert_eq!(shape("lm_head", 27), (27, 16));
    assert_eq!(shape("wpe", 27), (16, 16));
    assert_eq!(shape("layer0.mlp_fc1", 27), (64, 16));
    assert_eq!(shape("layer3.mlp_fc2", 27), (16, 64));
    assert_eq!(shape("layer0.attn_wo", 27), (16, 16));
    assert_eq!(shape("anything", 27), (16, 16));
}

#[test]
fn too_few_words_cannot_be_loaded() {
    let enough = format!("a{}\n", " 1".repeat(256));
    let short = format!("a{}\n", " 1".repeat(255));
    let more = format!("a{}\n", " 1".repeat(300));
    assert!(is_loadable(&parse_model(&enough), 3));
    assert!(!is_loadable(&parse_model(&short), 3));
    assert!(is_loadable(&parse_model(&more), 3));
    assert!(is_loadable(&parse_model(""), 3));
    assert!(!is_loadable(&parse_model("\n"), 3));
    assert!(!is_loadable(&parse_model("wte"), usize::MAX));
}

#[test]
fn a_later_line_takes_the_place_of_an_earlier_one() {
    let text = format!("a{}\na{}\n", " 1".repeat(256), " 2".repeat(256));
    let loaded = load_model(&parse_model(&text), 3);
    assert_eq!(loaded.model.params.get("a").unwrap()[0][0], 256);
    assert_eq!(loaded.sources[256], (1, 0));
    assert_eq!(loaded.sources.len(), 512);
}

#[test]
fn what_is_saved_is_what_is_loaded() {
    let vocab = 5;
    let model = init_params(vocab);
    let values = random_values(model.tape.len());
    let rendered: Vec<String> = values.iter().map(|v| format!("{:.17e}", v)).collect();
    let text = save_model(&model.params, &rendered);
    let lines = parse_model(&text);
    assert!(is_loadable(&lines, vocab));
    let loaded = load_model(&lines, vocab);
    let read: Vec<f64> =
        loaded.sources.iter().map(|&(l, w)| lines[l].words[w].parse().unwrap()).collect();
    assert!(is_usable(&loaded.model.params, vocab));
    assert_eq!(loaded.model.tape.len(), model.tape.len());
    assert_eq!(sorted_names(&loaded.model.params), sorted_names(&model.params));
    for name in sorted_names(&model.params) {
        let before = numbers(&model.params, &name, &values);
        let after = numbers(&loaded.model.params, &name, &read);
        assert_eq!(before, after, "{}", name);
    }
}

#[test]
fn words_of_a_line_are_the_entries_row_by_row() {
    let model = init_params(3);
    let rendered: Vec<String> = (0..model.tape.len()).map(|i| format!("{}e0", i)).collect();
    let lines = parse_model(&save_model(&model.params, &rendered));
    assert_eq!(lines.len(), 9);
    assert_eq!(lines.iter().map(|l| l.words.len()).sum::<usize>(), count_params(&model.params));
    for line in &lines {
        let m = model.params.get(&line.name).unwrap();
        let cols = m[0].len();
        for r in 0..m.len() {
            for c in 0..cols {
                assert_eq!(line.words[r * cols + c], rendered[m[r][c]]);
            }
        }
    }
}

// Sampling.

fn sampled(model: &Model, values: &[f64], tok: &Tokenizer, seed: u64) -> String {
    let Model { mut tape, params } = init_params(tok.vocab_size);
    assert_eq!(tape.len(), model.tape.len());
    let mut all = vec![0.0; tape.len()];
    for name in sorted_names(&params) {
        let from = model.params.get(&name).unwrap().iter().flatten();
        for (&id, &other) in params.get(&name).unwrap().iter().flatten().zip(from) {
            all[id] = values[other];
        }
    }
    let mut rng = StdRng::seed_from_u64(seed);
    let mut s = Sampler::new(tok);
    while !s.finished {
        let probs = s.probabilities(&mut tape, &params);
        evaluate(&tape, &mut all);
        let draw = tape.param();
        all.push(rng.gen::<f64>());
        let left = remainders(&mut tape, draw, &probs);
        evaluate(&tape, &mut all);
        let used_up: Vec<bool> = left.iter().map(|&id| all[id] <= 0.0).collect();
        s.accept(tok, weighted_choice(&used_up));
    }
    s.text
}

#[test]
fn a_reloaded_model_writes_the_same() {
    let tok = Tokenizer::new(&docs());
    let model = init_params(tok.vocab_size);
    let values = random_values(model.tape.len());
    let rendered: Vec<String> = values.iter().map(|v| format!("{:.17e}", v)).collect();
    let lines = parse_model(&save_model(&model.params, &rendered));
    let loaded = load_model(&lines, tok.vocab_size);
    let read: Vec<f64> =
        loaded.sources.iter().map(|&(l, w)| lines[l].words[w].parse().unwrap()).collect();
    let mut texts = vec![];
    for seed in 0..3 {
        let text = sampled(&model, &values, &tok, seed);
        assert_eq!(text, sampled(&loaded.model, &read, &tok, seed));
        texts.push(text);
    }
    assert!(texts.iter().any(|t| t != &texts[0]));
}

#[test]
fn the_first_used_up_position_is_chosen() {
    assert_eq!(weighted_choice(&vec![true, true]), 0);
    assert_eq!(weighted_choice(&vec![false, true, false]), 1);
    assert_eq!(weighted_choice(&vec![false, false, false]), 2);
    assert_eq!(weighted_choice(&vec![false]), 0);
}

#[test]
fn weights_are_taken_from_a_share_of_their_sum() {
    let mut tape = Tape::empty();
    let weights: Vec<usize> = (0..3).map(|_| tape.param()).collect();
    let draw = tape.param();
    let left = remainders(&mut tape, draw, &weights);
    let mut values = vec![1.0, 2.0, 5.0, 0.5];
    evaluate(&tape, &mut values);
    assert_eq!(left.iter().map(|&i| values[i]).collect::<Vec<_>>(), vec![3.0, 1.0, -4.0]);
}

#[test]
fn the_choice_rises_with_the_draw() {
    let weights = [0.1f64, 0.0, 0.3, 1e-9, 0.6];
    let choice_of = |u: f64| {
        let mut tape = Tape::empty();
        let ids: Vec<usize> = weights.iter().map(|_| tape.param()).collect();
        let draw = tape.param();
        let left = remainders(&mut tape, draw, &ids);
        let mut values = weights.to_vec();
        values.push(u);
        evaluate(&tape, &mut values);
        weighted_choice(&left.iter().map(|&id| values[id] <= 0.0).collect())
    };
    assert_eq!(choice_of(0.0), 0);
    assert_eq!(choice_of(0.999999), 4);
    let choices: Vec<usize> = (0..=1000).map(|k| choice_of(k as f64 / 1000.0)).collect();
    assert!(choices.windows(2).all(|pair| pair[0] <= pair[1]));
    assert!(choices.contains(&2));
}

fn probabilities_after(choices: &[usize], tok: &Tokenizer) -> (Vec<f64>, Sampler) {
    let Model { mut tape, params } = init_params(tok.vocab_size);
    let mut values = random_values(tape.len());
    let mut s = Sampler::new(tok);
    let mut probs = s.probabilities(&mut tape, &params);
    for &c in choices {
        s.accept(tok, c);
        probs = s.probabilities(&mut tape, &params);
    }
    evaluate(&tape, &mut values);
    (probs.iter().map(|&i| values[i]).collect(), s)
}

#[test]
fn probabilities_are_those_of_softened_logits() {
    let tok = Tokenizer::new(&docs());
    let (probs, s) = probabilities_after(&[3, 1], &tok);
    let model = init_params(tok.vocab_size);
    let values = random_values(model.tape.len());
    let (mut k, mut v) = (vec![vec![]; N_LAYER], vec![vec![]; N_LAYER]);
    let mut logits = vec![];
    for (pos, token) in [tok.bos, 3, 1].into_iter().enumerate() {
        logits = plain_gpt(token, pos, &mut k, &mut v, &model.params, &values);
    }
    let sharp: Vec<f64> = logits.iter().map(|x| x / 0.5).collect();
    for (p, x) in probs.iter().zip(plain_softmax(&sharp)) {
        assert!((p - x).abs() < 1e-12);
    }
    assert_eq!(probs.len(), tok.vocab_size);
    assert_eq!(s.tokens, vec![tok.bos, 3, 1]);
    assert_eq!(s.passed, 3);
}

#[test]
fn an_end_mark_completes_a_document() {
    let tok = Tokenizer::new(&docs());
    let Model { mut tape, params } = init_params(tok.vocab_size);
    let mut s = Sampler::new(&tok);
    let word = tok.encode("mia");
    for &token in &word[1..] {
        assert!(!s.finished);
        let _ = s.probabilities(&mut tape, &params);
        s.accept(&tok, token);
    }
    assert!(s.finished);
    assert_eq!(s.text, "mia");
}

#[test]
fn a_full_context_completes_a_document() {
    let tok = Tokenizer::new(&docs());
    let Model { mut tape, params } = init_params(tok.vocab_size);
    let mut s = Sampler::new(&tok);
    while !s.finished {
        let _ = s.probabilities(&mut tape, &params);
        s.accept(&tok, 0);
    }
    assert_eq!(s.text, "a".repeat(BLOCK_SIZE));
    assert_eq!(s.passed, BLOCK_SIZE);
}

#[test]
fn an_end_mark_at_once_gives_an_empty_document() {
    let tok = Tokenizer::new(&docs());
    let Model { mut tape, params } = init_params(tok.vocab_size);
    let mut s = Sampler::new(&tok);
    let _ = s.probabilities(&mut tape, &params);
    s.accept(&tok, tok.bos);
    assert!(s.finished);
    assert_eq!(s.text, "");
}
