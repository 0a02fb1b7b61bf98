//! Which operations the network makes, and in which order, whatever the arithmetic.
//!
//! Every law here says what a result is worth in terms of what its inputs are worth, as
//! operations of an arithmetic of which nothing is known, so it holds of rounded numbers
//! as well as of exact ones.

use vstd::prelude::*;

use crate::agreement::lemma_worth_of_args;
use crate::config::{
    BETA1, BETA2, BLOCK_SIZE, EPS_ADAM, EPS_NORM, HEAD_DIM, INIT_STD, LEARNING_RATE, LEAST_DRAW,
    NUM_STEPS, N_EMBD, N_HEAD, PI, TEMPERATURE,
};
use crate::gpt::{attention_exprs, head_column, head_logits, head_part, head_scale, Weights};
use crate::inference::{lemma_weight_sum, weight_sum};
use crate::layers::{
    dot_expr, linear_exprs, mean_square_expr, relu_exprs, rms_scale_expr, rmsnorm_exprs,
    scaled_exprs, shifted_exponentials, softmax_exprs, square_exprs, sum_exprs, total_expr,
};
use crate::numbers::lemma_heads;
use crate::optimizer::{
    direction_expr, first_moment, initial_expr, normal_expr, pull_expr, radius_expr, rate_expr,
    second_moment, spread_expr, unbiased, updated,
};
use crate::sampler::next_probabilities;
use crate::tape::{
    constant, cosine, detached, divided, exponential, int_power, largest, leaf, logarithm, minus,
    negated, number, plus, power, quotient, rectified, root, times, worth_of, worths_of, Expr, Op,
    MINUS_HALF, MINUS_ONE, MINUS_TWO, ONE, TWO, ZERO,
};
use crate::train::{lemma_logits_len, loss_at, loss_expr, losses, passes};

verus! {

/// Every expression hands its operation what its parts are worth, in their order.
pub proof fn law_operations<T>(
    o: spec_fn(Op, Seq<T>) -> T,
    a: Expr,
    b: Expr,
    bits: u64,
    n: usize,
)
    ensures
        ({
            let x = worth_of(a, o);
            let y = worth_of(b, o);
            &&& worth_of(constant(bits), o) == o(Op::Const(bits), Seq::empty())
            &&& worth_of(number(n), o) == o(Op::Number(n), Seq::empty())
            &&& worth_of(leaf(Op::Param(n)), o) == o(Op::Param(n), Seq::empty())
            &&& worth_of(plus(a, b), o) == o(Op::Add, seq![x, y])
            &&& worth_of(times(a, b), o) == o(Op::Mul, seq![x, y])
            &&& worth_of(quotient(a, b), o) == o(Op::Quotient, seq![x, y])
            &&& worth_of(minus(a, b), o) == o(Op::Add, seq![x, o(Op::Neg, seq![y])])
            &&& worth_of(divided(a, b), o) == o(Op::Mul, seq![x, o(Op::Pow(MINUS_ONE), seq![y])])
            &&& worth_of(negated(a), o) == o(Op::Neg, seq![x])
            &&& worth_of(exponential(a), o) == o(Op::Exp, seq![x])
            &&& worth_of(logarithm(a), o) == o(Op::Log, seq![x])
            &&& worth_of(rectified(a), o) == o(Op::Relu, seq![x])
            &&& worth_of(power(a, bits), o) == o(Op::Pow(bits), seq![x])
            &&& worth_of(detached(a), o) == o(Op::Detach, seq![x])
            &&& worth_of(root(a), o) == o(Op::Root, seq![x])
            &&& worth_of(cosine(a), o) == o(Op::Cosine, seq![x])
            &&& worth_of(int_power(a, n), o) == o(Op::IntPow(n), seq![x])
        }),
{
    lemma_worth_of_args(Op::Const(bits), a, b, o);
    lemma_worth_of_args(Op::Number(n), a, b, o);
    lemma_worth_of_args(Op::Param(n), a, b, o);
    lemma_worth_of_args(Op::Add, a, b, o);
    lemma_worth_of_args(Op::Mul, a, b, o);
    lemma_worth_of_args(Op::Quotient, a, b, o);
    lemma_worth_of_args(Op::Neg, a, b, o);
    lemma_worth_of_args(Op::Neg, b, a, o);
    lemma_worth_of_args(Op::Add, a, negated(b), o);
    lemma_worth_of_args(Op::Pow(MINUS_ONE), b, a, o);
    lemma_worth_of_args(Op::Mul, a, power(b, MINUS_ONE), o);
    lemma_worth_of_args(Op::Exp, a, b, o);
    lemma_worth_of_args(Op::Log, a, b, o);
    lemma_worth_of_args(Op::Relu, a, b, o);
    lemma_worth_of_args(Op::Pow(bits), a, b, o);
    lemma_worth_of_args(Op::Detach, a, b, o);
    lemma_worth_of_args(Op::Root, a, b, o);
    lemma_worth_of_args(Op::Cosine, a, b, o);
    lemma_worth_of_args(Op::IntPow(n), a, b, o);
}

/// Zero, and the products of the first `n` pairs added to it one after the other.
pub open spec fn product_sum<T>(
    o: spec_fn(Op, Seq<T>) -> T,
    xs: Seq<T>,
    ys: Seq<T>,
    n: nat,
) -> T
    decreases n,
{
    if n == 0 {
        o(Op::Const(ZERO), Seq::empty())
    } else {
        o(
            Op::Add,
            seq![product_sum(o, xs, ys, (n - 1) as nat), o(Op::Mul, seq![xs[n - 1], ys[n - 1]])],
        )
    }
}

/// Totals and scalar products start from zero and add one summand after the other, from
/// the first to the last.
pub proof fn law_totals<T>(o: spec_fn(Op, Seq<T>) -> T, x: Seq<Expr>, y: Seq<Expr>, n: nat)
    requires
        n <= x.len(),
        n <= y.len(),
    ensures
        worth_of(total_expr(x, n), o) == weight_sum(o, worths_of(x, o), n),
        worth_of(dot_expr(x, y, n), o) == product_sum(o, worths_of(x, o), worths_of(y, o), n),
        weight_sum(o, worths_of(x, o), 0) == o(Op::Const(ZERO), Seq::empty()),
        n > 0 ==> weight_sum(o, worths_of(x, o), n) == o(
            Op::Add,
            seq![weight_sum(o, worths_of(x, o), (n - 1) as nat), worth_of(x[n - 1], o)],
        ),
        product_sum(o, worths_of(x, o), worths_of(y, o), 0) == o(Op::Const(ZERO), Seq::empty()),
        n > 0 ==> product_sum(o, worths_of(x, o), worths_of(y, o), n) == o(
            Op::Add,
            seq![
                product_sum(o, worths_of(x, o), worths_of(y, o), (n - 1) as nat),
                o(Op::Mul, seq![worth_of(x[n - 1], o), worth_of(y[n - 1], o)]),
            ],
        ),
    decreases n,
{
    lemma_weight_sum(o, x, n);
    let zero = constant(ZERO);
    if n == 0 {
        law_operations(o, zero, zero, ZERO, 0);
    } else {
        let m = (n - 1) as nat;
        law_totals(o, x, y, m);
        law_operations(o, x[n - 1], y[n - 1], 0, 0);
        law_operations(o, dot_expr(x, y, m), times(x[n - 1], y[n - 1]), 0, 0);
    }
}

/// The entries of a linear layer are scalar products of its rows with the vector; sums and
/// rectifiers go entry by entry.
pub proof fn law_entry_by_entry<T>(
    o: spec_fn(Op, Seq<T>) -> T,
    x: Seq<Expr>,
    y: Seq<Expr>,
    w: Seq<Seq<Expr>>,
    i: int,
)
    ensures
        0 <= i < w.len() && w[i].len() == x.len() ==> worth_of(linear_exprs(x, w)[i], o)
            == product_sum(o, worths_of(w[i], o), worths_of(x, o), x.len()),
        0 <= i < x.len() && i < y.len() ==> worth_of(sum_exprs(x, y)[i], o) == o(
            Op::Add,
            seq![worth_of(x[i], o), worth_of(y[i], o)],
        ),
        0 <= i < x.len() ==> worth_of(relu_exprs(x)[i], o) == o(Op::Relu, seq![worth_of(x[i], o)]),
{
    if 0 <= i < w.len() && w[i].len() == x.len() {
        law_totals(o, w[i], x, x.len());
    }
    if 0 <= i < x.len() {
        law_operations(o, x[i], y[i], 0, 0);
    }
}

/// Normalising multiplies by the power `-0.5` of the mean square and the small number.
pub proof fn law_normalising<T>(o: spec_fn(Op, Seq<T>) -> T, x: Seq<Expr>, i: int)
    requires
        0 <= i < x.len() <= usize::MAX,
    ensures
        ({
            let xs = worths_of(x, o);
            let mean = o(
                Op::Quotient,
                seq![
                    product_sum(o, xs, xs, x.len()),
                    o(Op::Number(x.len() as usize), Seq::empty()),
                ],
            );
            let raised = o(
                Op::Pow(MINUS_HALF),
                seq![o(Op::Add, seq![mean, o(Op::Const(EPS_NORM), Seq::empty())])],
            );
            worth_of(rmsnorm_exprs(x)[i], o) == o(
                Op::Mul,
                seq![worth_of(x[i], o), o(Op::Detach, seq![raised])],
            )
        }),
{
    let n = x.len();
    let all = total_expr(square_exprs(x), n);
    lemma_squares(o, x, n);
    law_operations(o, all, number(n as usize), EPS_NORM, n as usize);
    let shifted = plus(mean_square_expr(x), constant(EPS_NORM));
    law_operations(o, mean_square_expr(x), constant(EPS_NORM), 0, 0);
    law_operations(o, shifted, shifted, MINUS_HALF, 0);
    law_operations(o, power(shifted, MINUS_HALF), shifted, 0, 0);
    law_operations(o, x[i], rms_scale_expr(x), 0, 0);
}

proof fn lemma_squares<T>(o: spec_fn(Op, Seq<T>) -> T, x: Seq<Expr>, n: nat)
    requires
        n <= x.len(),
    ensures
        worth_of(total_expr(square_exprs(x), n), o) == product_sum(
            o,
            worths_of(x, o),
            worths_of(x, o),
            n,
        ),
    decreases n,
{
    let zero = constant(ZERO);
    if n == 0 {
        law_operations(o, zero, zero, ZERO, 0);
    } else {
        let m = (n - 1) as nat;
        lemma_squares(o, x, m);
        law_operations(o, x[n - 1], x[n - 1], 0, 0);
        law_operations(o, total_expr(square_exprs(x), m), square_exprs(x)[n - 1], 0, 0);
    }
}

/// The softmax subtracts the largest of all logits from each before the exponential, and
/// multiplies by the power `-1` of the sum of all exponentials.
pub proof fn law_softmax_operations<T>(o: spec_fn(Op, Seq<T>) -> T, logits: Seq<Expr>, i: int)
    requires
        0 <= i < logits.len(),
    ensures
        ({
            let ls = worths_of(logits, o);
            let top = o(Op::Neg, seq![o(Op::Max, ls)]);
            let es = Seq::new(
                logits.len(),
                |k: int| o(Op::Exp, seq![o(Op::Add, seq![worth_of(logits[k], o), top])]),
            );
            worth_of(softmax_exprs(logits)[i], o) == o(
                Op::Mul,
                seq![es[i], o(Op::Pow(MINUS_ONE), seq![weight_sum(o, es, logits.len())])],
            )
        }),
{
    let n = logits.len();
    let ls = worths_of(logits, o);
    let top = o(Op::Neg, seq![o(Op::Max, ls)]);
    let es = Seq::new(
        n,
        |k: int| o(Op::Exp, seq![o(Op::Add, seq![worth_of(logits[k], o), top])]),
    );
    let exps = shifted_exponentials(logits);
    assert forall|k: int| 0 <= k < n implies #[trigger] worths_of(exps, o)[k] == es[k] by {
        law_operations(o, logits[k], largest(logits), 0, 0);
        law_operations(o, minus(logits[k], largest(logits)), logits[k], 0, 0);
    }
    assert(worths_of(exps, o) =~= es);
    lemma_weight_sum(o, exps, n);
    law_operations(o, exps[i], total_expr(exps, n), 0, 0);
    assert(worths_of(exps, o)[i] == worth_of(exps[i], o));
}

/// A match is the scalar product of the head's parts of query and key, times one over the
/// root of the head's width. An entry of attention is the scalar product of the softmax of
/// all matches with that entry of the values of all positions.
pub proof fn law_attention_operations<T>(
    o: spec_fn(Op, Seq<T>) -> T,
    q: Seq<Expr>,
    keys: Seq<Seq<Expr>>,
    values: Seq<Seq<Expr>>,
    h: nat,
    j: int,
)
    requires
        keys.len() == values.len(),
        q.len() == N_EMBD,
        forall|t: int| 0 <= t < keys.len() ==> (#[trigger] keys[t]).len() == N_EMBD,
        forall|t: int| 0 <= t < values.len() ==> (#[trigger] values[t]).len() == N_EMBD,
        h < N_HEAD,
        0 <= j < HEAD_DIM,
    ensures
        ({
            let hs = h * HEAD_DIM;
            let matches = head_logits(q, keys, hs);
            let scale = o(
                Op::Quotient,
                seq![
                    o(Op::Const(ONE), Seq::empty()),
                    o(Op::Root, seq![o(Op::Number(HEAD_DIM), Seq::empty())]),
                ],
            );
            &&& matches.len() == keys.len()
            &&& forall|t: int|
                0 <= t < keys.len() ==> worth_of(#[trigger] matches[t], o) == o(
                    Op::Mul,
                    seq![
                        product_sum(
                            o,
                            worths_of(q.subrange(hs, hs + HEAD_DIM), o),
                            worths_of(keys[t].subrange(hs, hs + HEAD_DIM), o),
                            HEAD_DIM as nat,
                        ),
                        scale,
                    ],
                )
            &&& worth_of(attention_exprs(q, keys, values, N_HEAD as nat)[hs + j], o) == product_sum(
                o,
                worths_of(softmax_exprs(matches), o),
                Seq::new(keys.len(), |t: int| worth_of(values[t][hs + j], o)),
                keys.len(),
            )
        }),
{
    let hs = h * HEAD_DIM;
    assert(0 <= hs && hs + HEAD_DIM <= N_EMBD) by (nonlinear_arith)
        requires
            hs == h * HEAD_DIM,
            h + 1 <= N_HEAD,
            N_HEAD * HEAD_DIM == N_EMBD,
    ;
    let n = keys.len();
    let matches = head_logits(q, keys, hs);
    let column = head_column(values, n, hs, j);
    lemma_heads(q, keys, values, N_HEAD as nat, h, j);
    law_totals(o, softmax_exprs(matches), column, n);
    let entries = Seq::new(n, |t: int| worth_of(values[t][hs + j], o));
    assert forall|t: int| 0 <= t < n implies #[trigger] worths_of(column, o)[t] == entries[t] by {
        assert(values[t].len() == N_EMBD);
        assert(column[t] == values[t][hs + j]);
    }
    assert(worths_of(column, o) =~= entries);
    let one = constant(ONE);
    law_operations(o, number(HEAD_DIM), one, ONE, HEAD_DIM);
    law_operations(o, one, root(number(HEAD_DIM)), ONE, 0);
    assert forall|t: int| 0 <= t < n implies worth_of(#[trigger] matches[t], o) == o(
        Op::Mul,
        seq![
            product_sum(
                o,
                worths_of(q.subrange(hs, hs + HEAD_DIM), o),
                worths_of(keys[t].subrange(hs, hs + HEAD_DIM), o),
                HEAD_DIM as nat,
            ),
            worth_of(head_scale(), o),
        ],
    ) by {
        assert(keys[t].len() == N_EMBD);
        let (x, y) = (head_part(q, hs), head_part(keys[t], hs));
        law_totals(o, x, y, HEAD_DIM as nat);
        law_operations(o, dot_expr(x, y, HEAD_DIM as nat), head_scale(), 0, 0);
    }
}

/// The loss at a position is the negated logarithm of a probability, and the loss of a
/// document the sum of the losses times one over their number.
pub proof fn law_loss_operations<T>(
    o: spec_fn(Op, Seq<T>) -> T,
    tokens: Seq<usize>,
    w: Weights,
    n: nat,
    i: int,
)
    requires
        tokens.len() >= 2,
        n <= tokens.len() - 1,
        n <= BLOCK_SIZE,
        n == tokens.len() - 1 || n == BLOCK_SIZE,
    ensures
        ({
            let all = Seq::new(n, |k: int| worth_of(loss_at(tokens, w, k), o));
            let logits = passes(tokens, w, (i + 1) as nat).logits[i];
            &&& worth_of(loss_expr(tokens, w), o) == o(
                Op::Mul,
                seq![
                    weight_sum(o, all, n),
                    o(
                        Op::Quotient,
                        seq![
                            o(Op::Const(ONE), Seq::empty()),
                            o(Op::Number(n as usize), Seq::empty()),
                        ],
                    ),
                ],
            )
            &&& worth_of(loss_at(tokens, w, i), o) == o(
                Op::Neg,
                seq![
                    o(Op::Log, seq![worth_of(softmax_exprs(logits)[tokens[i + 1] as int], o)]),
                ],
            )
        }),
{
    let all = Seq::new(n, |k: int| worth_of(loss_at(tokens, w, k), o));
    let parts = losses(tokens, w, n);
    assert(worths_of(parts, o) =~= all);
    lemma_weight_sum(o, parts, n);
    let (one, count) = (constant(ONE), number(n as usize));
    law_operations(o, one, count, ONE, n as usize);
    law_operations(o, total_expr(parts, n), quotient(one, count), 0, 0);
    let p = softmax_exprs(passes(tokens, w, (i + 1) as nat).logits[i])[tokens[i + 1] as int];
    law_operations(o, p, p, 0, 0);
    law_operations(o, logarithm(p), p, 0, 0);
}

/// The probabilities of the next token are the softmax of the logits at the last token,
/// each times one over the temperature.
pub proof fn law_sampling_operations<T>(
    o: spec_fn(Op, Seq<T>) -> T,
    tokens: Seq<usize>,
    w: Weights,
) -> (scaled: Seq<Expr>)
    requires
        tokens.len() > 0,
    ensures
        ({
            let logits = passes(tokens, w, tokens.len()).logits[tokens.len() - 1];
            &&& next_probabilities(tokens, w) == softmax_exprs(scaled)
            &&& scaled.len() == logits.len()
            &&& forall|k: int|
                0 <= k < logits.len() ==> worth_of(#[trigger] scaled[k], o) == o(
                    Op::Mul,
                    seq![
                        worth_of(logits[k], o),
                        o(
                            Op::Quotient,
                            seq![
                                o(Op::Const(ONE), Seq::empty()),
                                o(Op::Const(TEMPERATURE), Seq::empty()),
                            ],
                        ),
                    ],
                )
        }),
{
    let logits = passes(tokens, w, tokens.len()).logits[tokens.len() - 1];
    lemma_logits_len(tokens, w, tokens.len());
    let (one, warm) = (constant(ONE), constant(TEMPERATURE));
    let factor = quotient(one, warm);
    law_operations(o, one, warm, ONE, 0);
    law_operations(o, one, warm, TEMPERATURE, 0);
    let scaled = scaled_exprs(logits, factor);
    assert forall|k: int| 0 <= k < logits.len() implies worth_of(#[trigger] scaled[k], o) == o(
        Op::Mul,
        seq![worth_of(logits[k], o), worth_of(factor, o)],
    ) by {
        law_operations(o, logits[k], factor, 0, 0);
    }
    scaled
}

/// A step of the optimizer: the moments keep their share and take the rest from the
/// gradient and its square; the parameter loses the rate times the unbiased first moment,
/// over the root of the unbiased second and the small number.
pub proof fn law_step_operations<T>(
    o: spec_fn(Op, Seq<T>) -> T,
    data: Expr,
    m: Expr,
    v: Expr,
    g: Expr,
    step: usize,
)
    requires
        step < usize::MAX,
    ensures
        ({
            let one = o(Op::Const(ONE), Seq::empty());
            let (b1, b2) = (o(Op::Const(BETA1), Seq::empty()), o(Op::Const(BETA2), Seq::empty()));
            let rest1 = o(Op::Add, seq![one, o(Op::Neg, seq![b1])]);
            let rest2 = o(Op::Add, seq![one, o(Op::Neg, seq![b2])]);
            let (x, y) = (worth_of(m, o), worth_of(v, o));
            let d = worth_of(g, o);
            let count = (step + 1) as usize;
            let bias1 = o(Op::Add, seq![one, o(Op::Neg, seq![o(Op::IntPow(count), seq![b1])])]);
            let bias2 = o(Op::Add, seq![one, o(Op::Neg, seq![o(Op::IntPow(count), seq![b2])])]);
            let done = o(
                Op::Quotient,
                seq![o(Op::Number(step), Seq::empty()), o(Op::Number(NUM_STEPS), Seq::empty())],
            );
            let rate = o(
                Op::Mul,
                seq![
                    o(Op::Const(LEARNING_RATE), Seq::empty()),
                    o(Op::Add, seq![one, o(Op::Neg, seq![done])]),
                ],
            );
            let above = o(Op::Mul, seq![rate, o(Op::Quotient, seq![x, bias1])]);
            let below = o(
                Op::Add,
                seq![
                    o(Op::Root, seq![o(Op::Quotient, seq![y, bias2])]),
                    o(Op::Const(EPS_ADAM), Seq::empty()),
                ],
            );
            &&& worth_of(first_moment(m, g), o) == o(
                Op::Add,
                seq![o(Op::Mul, seq![b1, x]), o(Op::Mul, seq![rest1, d])],
            )
            &&& worth_of(second_moment(v, g), o) == o(
                Op::Add,
                seq![
                    o(Op::Mul, seq![b2, y]),
                    o(Op::Mul, seq![o(Op::Mul, seq![rest2, d]), d]),
                ],
            )
            &&& worth_of(rate_expr(step), o) == rate
            &&& worth_of(updated(data, m, v, step), o) == o(
                Op::Add,
                seq![worth_of(data, o), o(Op::Neg, seq![o(Op::Quotient, seq![above, below])])],
            )
        }),
{
    let one = constant(ONE);
    let (b1, b2) = (constant(BETA1), constant(BETA2));
    law_operations(o, one, b1, ONE, step);
    law_operations(o, one, b2, BETA1, NUM_STEPS);
    law_operations(o, b1, m, BETA2, 0);
    law_operations(o, b2, v, LEARNING_RATE, 0);
    law_operations(o, minus(one, b1), g, EPS_ADAM, 0);
    law_operations(o, minus(one, b2), g, 0, 0);
    law_operations(o, times(minus(one, b2), g), g, 0, 0);
    law_operations(o, times(b1, m), times(minus(one, b1), g), 0, 0);
    law_operations(o, times(b2, v), times(times(minus(one, b2), g), g), 0, 0);
    let done = quotient(number(step), number(NUM_STEPS));
    law_operations(o, number(step), number(NUM_STEPS), 0, 0);
    law_operations(o, one, done, 0, 0);
    law_operations(o, constant(LEARNING_RATE), minus(one, done), 0, 0);
    let count = (step + 1) as usize;
    law_operations(o, b1, b1, 0, count);
    law_operations(o, b2, b2, 0, count);
    law_operations(o, one, int_power(b1, count), 0, 0);
    law_operations(o, one, int_power(b2, count), 0, 0);
    law_operations(o, m, minus(one, int_power(b1, count)), 0, 0);
    law_operations(o, v, minus(one, int_power(b2, count)), 0, 0);
    law_operations(o, rate_expr(step), unbiased(m, BETA1, step), 0, 0);
    law_operations(o, unbiased(v, BETA2, step), one, 0, 0);
    law_operations(o, root(unbiased(v, BETA2, step)), constant(EPS_ADAM), 0, 0);
    law_operations(o, pull_expr(m, step), spread_expr(v, step), 0, 0);
    law_operations(o, data, quotient(pull_expr(m, step), spread_expr(v, step)), 0, 0);
}

/// An initial parameter: the root of minus two times the logarithm of the first draw, kept
/// from zero, times the cosine of the full turn times the second, times the standard
/// deviation.
pub proof fn law_draw_operations<T>(o: spec_fn(Op, Seq<T>) -> T, u1: Expr, u2: Expr)
    ensures
        ({
            let kept = o(
                Op::Max,
                seq![worth_of(u1, o), o(Op::Const(LEAST_DRAW), Seq::empty())],
            );
            let radius = o(
                Op::Root,
                seq![
                    o(
                        Op::Mul,
                        seq![o(Op::Const(MINUS_TWO), Seq::empty()), o(Op::Log, seq![kept])],
                    ),
                ],
            );
            let turn = o(
                Op::Mul,
                seq![o(Op::Const(TWO), Seq::empty()), o(Op::Const(PI), Seq::empty())],
            );
            let direction = o(Op::Cosine, seq![o(Op::Mul, seq![turn, worth_of(u2, o)])]);
            let z = o(Op::Mul, seq![radius, direction]);
            &&& worth_of(normal_expr(u1, u2), o) == z
            &&& worth_of(initial_expr(u1, u2), o) == o(
                Op::Mul,
                seq![z, o(Op::Const(INIT_STD), Seq::empty())],
            )
        }),
{
    let least = constant(LEAST_DRAW);
    let kept = largest(seq![u1, least]);
    lemma_worth_of_args(Op::Max, u1, least, o);
    law_operations(o, u1, u2, LEAST_DRAW, 0);
    law_operations(o, kept, u2, MINUS_TWO, 0);
    law_operations(o, constant(MINUS_TWO), logarithm(kept), TWO, 0);
    law_operations(o, times(constant(MINUS_TWO), logarithm(kept)), u1, PI, 0);
    law_operations(o, constant(TWO), constant(PI), INIT_STD, 0);
    law_operations(o, times(constant(TWO), constant(PI)), u2, 0, 0);
    law_operations(o, times(times(constant(TWO), constant(PI)), u2), u2, 0, 0);
    law_operations(o, radius_expr(u1), direction_expr(u2), 0, 0);
    law_operations(o, normal_expr(u1, u2), constant(INIT_STD), 0, 0);
}

} // verus!
