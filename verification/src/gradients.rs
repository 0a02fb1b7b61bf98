//! What the gradients of the network are, number by number, where the arithmetic is exact.
//!
//! Every law here says what the derivative of a result is in terms of the values and the
//! derivatives of its inputs, as calculus has it.

use vstd::prelude::*;

use crate::chain_rule::{expr_derivative, expr_slope, through_args};
use crate::config::{BLOCK_SIZE, HEAD_DIM, N_EMBD, N_HEAD};
use crate::exact::{
    arithmetic, law_softmax_is_a_distribution, lemma_sum_positive, lemma_sum_scaled,
    lemma_worth_constant, lemma_worth_pair, lemma_worth_shifted, lemma_worth_single,
    lemma_worth_softmax, lemma_worth_total, sum, worth, worths, Functions,
};
use crate::gpt::{
    attended, attention_exprs, embedded, head_column, head_logits, head_of, head_part,
    head_scale, perceived, projected, Stream, Weights,
};
use crate::layers::{
    dot_expr, linear_exprs, relu_exprs, rms_scale_expr, rmsnorm_exprs, shifted_exponentials,
    softmax_exprs, sum_exprs, total_expr,
};
use crate::numbers::{law_linear_layer, lemma_heads, lemma_heads_len, lemma_sums};
use crate::params::layer_part;
use crate::tape::{
    constant, exponential, largest, logarithm, minus, negated, number, plus, power, quotient,
    rectified, root, times, Expr, MINUS_ONE, ONE,
};
use crate::train::{lemma_logits_len, loss_at, loss_expr, losses, passes};

verus! {

/// What is differentiated with respect to which parameter: the functions beyond sums and
/// products, the slopes of powers, and the parameter.
pub struct Calculus {
    pub f: Functions,
    pub power: spec_fn(real, u64) -> real,
    pub p: usize,
}

/// The derivative of an expression.
pub open spec fn grad(c: Calculus, e: Expr) -> real {
    expr_derivative(e, c.p, arithmetic(c.f), c.power)
}

/// What two arguments contribute to a derivative.
proof fn lemma_through_both(c: Calculus, e: Expr)
    requires
        e.args.len() == 2,
    ensures
        through_args(e, 2, c.p, arithmetic(c.f), c.power) == expr_slope(
            e,
            0,
            arithmetic(c.f),
            c.power,
        ) * grad(c, e.args[0]) + expr_slope(e, 1, arithmetic(c.f), c.power) * grad(c, e.args[1]),
{
    let apply = arithmetic(c.f);
    assert(through_args(e, 0, c.p, apply, c.power) == 0real);
    assert(through_args(e, 1, c.p, apply, c.power) == 0real + expr_slope(e, 0, apply, c.power)
        * grad(c, e.args[0]));
}

/// The derivatives of the operations on two expressions.
proof fn lemma_grad_pair(c: Calculus, a: Expr, b: Expr)
    ensures
        grad(c, plus(a, b)) == grad(c, a) + grad(c, b),
        grad(c, minus(a, b)) == grad(c, a) - grad(c, b),
        grad(c, times(a, b)) == worth(c.f, b) * grad(c, a) + worth(c.f, a) * grad(c, b),
        grad(c, quotient(a, b)) == 0real,
{
    let (s, d, t) = (plus(a, b), minus(a, b), times(a, b));
    lemma_through_both(c, s);
    lemma_through_both(c, d);
    lemma_through_both(c, t);
    lemma_grad_single(c, b);
    let (x, y, z) = (grad(c, a), grad(c, b), grad(c, negated(b)));
    assert(1real * x == x && 1real * y == y && 1real * z == z) by (nonlinear_arith);
}

/// The derivatives of the operations on one expression.
proof fn lemma_grad_single(c: Calculus, a: Expr)
    ensures
        grad(c, negated(a)) == -grad(c, a),
        grad(c, exponential(a)) == worth(c.f, exponential(a)) * grad(c, a),
        grad(c, logarithm(a)) == 1real / worth(c.f, a) * grad(c, a),
        grad(c, power(a, MINUS_ONE)) == (c.power)(worth(c.f, a), MINUS_ONE) * grad(c, a),
        worth(c.f, a) > 0real ==> grad(c, rectified(a)) == grad(c, a),
        worth(c.f, a) <= 0real ==> grad(c, rectified(a)) == 0real,
{
    reveal_with_fuel(expr_derivative, 2);
    reveal_with_fuel(through_args, 2);
    let apply = arithmetic(c.f);
    let n = negated(a);
    assert(n.args[0] == a && n.args.len() == 1);
    assert(grad(c, n) == through_args(n, 1, c.p, apply, c.power));
    let e = exponential(a);
    assert(e.args[0] == a && e.args.len() == 1);
    assert(grad(c, e) == through_args(e, 1, c.p, apply, c.power));
    let l = logarithm(a);
    assert(l.args[0] == a && l.args.len() == 1);
    assert(grad(c, l) == through_args(l, 1, c.p, apply, c.power));
    let i = power(a, MINUS_ONE);
    assert(i.args[0] == a && i.args.len() == 1);
    assert(grad(c, i) == through_args(i, 1, c.p, apply, c.power));
    let r = rectified(a);
    assert(r.args[0] == a && r.args.len() == 1);
    assert(grad(c, r) == through_args(r, 1, c.p, apply, c.power));
    let g = grad(c, a);
    assert(1real * g == g && 0real * g == 0real && -1real * g == -g) by (nonlinear_arith);
}

/// No gradient flows from constants, and none through what is detached.
proof fn lemma_grad_constant(c: Calculus, bits: u64, n: usize, a: Seq<Expr>, x: Seq<Expr>)
    ensures
        grad(c, constant(bits)) == 0real,
        grad(c, number(n)) == 0real,
        grad(c, largest(a)) == 0real,
        grad(c, rms_scale_expr(x)) == 0real,
{
    reveal_with_fuel(expr_derivative, 1);
    reveal_with_fuel(through_args, 1);
}

/// The derivative of a total is the sum of the derivatives.
proof fn lemma_grad_total(c: Calculus, a: Seq<Expr>, n: nat)
    requires
        n <= a.len(),
    ensures
        grad(c, total_expr(a, n)) == sum(Seq::new(n, |i: int| grad(c, a[i]))),
    decreases n,
{
    let all = Seq::new(n, |i: int| grad(c, a[i]));
    if n == 0 {
        lemma_grad_constant(c, 0, 0, a, a);
    } else {
        let m = (n - 1) as nat;
        lemma_grad_total(c, a, m);
        lemma_grad_pair(c, total_expr(a, m), a[n - 1]);
        assert(all.drop_last() =~= Seq::new(m, |i: int| grad(c, a[i])));
    }
}

/// A scalar product has the derivative that the product rule gives it, summand by summand.
pub proof fn law_gradient_of_a_scalar_product(c: Calculus, x: Seq<Expr>, y: Seq<Expr>, n: nat)
    requires
        n <= x.len(),
        n <= y.len(),
    ensures
        grad(c, dot_expr(x, y, n)) == sum(
            Seq::new(
                n,
                |i: int| worth(c.f, y[i]) * grad(c, x[i]) + worth(c.f, x[i]) * grad(c, y[i]),
            ),
        ),
    decreases n,
{
    let all = Seq::new(
        n,
        |i: int| worth(c.f, y[i]) * grad(c, x[i]) + worth(c.f, x[i]) * grad(c, y[i]),
    );
    if n == 0 {
        lemma_grad_constant(c, 0, 0, x, x);
    } else {
        let m = (n - 1) as nat;
        law_gradient_of_a_scalar_product(c, x, y, m);
        lemma_grad_pair(c, x[n - 1], y[n - 1]);
        lemma_grad_pair(c, dot_expr(x, y, m), times(x[n - 1], y[n - 1]));
        assert(all.drop_last() =~= Seq::new(
            m,
            |i: int| worth(c.f, y[i]) * grad(c, x[i]) + worth(c.f, x[i]) * grad(c, y[i]),
        ));
    }
}

/// A linear layer passes a gradient on to all entries of a row, each with the entry of the
/// vector as its factor, and to all entries of the vector, each with the entry of the row.
pub proof fn law_gradient_of_a_linear_layer(
    c: Calculus,
    x: Seq<Expr>,
    w: Seq<Seq<Expr>>,
    r: int,
    n: nat,
)
    requires
        0 <= r < w.len(),
        n == w[r].len(),
        n == x.len(),
    ensures
        grad(c, linear_exprs(x, w)[r]) == sum(
            Seq::new(
                n,
                |i: int| worth(c.f, x[i]) * grad(c, w[r][i]) + worth(c.f, w[r][i]) * grad(c, x[i]),
            ),
        ),
{
    law_gradient_of_a_scalar_product(c, w[r], x, n);
}

/// A sum of vectors passes its gradient on to both.
pub proof fn law_gradient_of_a_sum(c: Calculus, x: Seq<Expr>, y: Seq<Expr>, i: int)
    requires
        0 <= i < x.len(),
        i < y.len(),
    ensures
        grad(c, sum_exprs(x, y)[i]) == grad(c, x[i]) + grad(c, y[i]),
{
    lemma_grad_pair(c, x[i], y[i]);
}

/// A rectifier passes the gradient on where its input is positive, and nowhere else.
pub proof fn law_gradient_of_a_rectifier(c: Calculus, x: Seq<Expr>, i: int)
    requires
        0 <= i < x.len(),
    ensures
        worth(c.f, x[i]) > 0real ==> grad(c, relu_exprs(x)[i]) == grad(c, x[i]),
        worth(c.f, x[i]) <= 0real ==> grad(c, relu_exprs(x)[i]) == 0real,
{
    lemma_grad_single(c, x[i]);
}

/// Normalising multiplies all entries by one factor, and their gradients by the same: no
/// gradient flows through the factor itself.
pub proof fn law_gradient_of_normalisation(c: Calculus, x: Seq<Expr>) -> (factor: real)
    ensures
        forall|i: int|
            0 <= i < x.len() ==> worth(c.f, #[trigger] rmsnorm_exprs(x)[i]) == worth(c.f, x[i])
                * factor && grad(c, rmsnorm_exprs(x)[i]) == factor * grad(c, x[i]),
{
    let scale = rms_scale_expr(x);
    let factor = worth(c.f, scale);
    lemma_grad_constant(c, 0, 0, x, x);
    assert forall|i: int| 0 <= i < x.len() implies worth(c.f, #[trigger] rmsnorm_exprs(x)[i])
        == worth(c.f, x[i]) * factor && grad(c, rmsnorm_exprs(x)[i]) == factor * grad(c, x[i]) by {
        lemma_worth_pair(c.f, x[i], scale);
        lemma_grad_pair(c, x[i], scale);
        let v = worth(c.f, x[i]);
        assert(v * 0real == 0real) by (nonlinear_arith);
    }
    factor
}

/// A probability of a softmax rises with its own logit and falls with the mean change of
/// all logits: the largest logit, which is subtracted, plays no part.
pub proof fn law_gradient_of_softmax(c: Calculus, logits: Seq<Expr>, i: int)
    requires
        0 <= i < logits.len(),
        forall|x: real| #[trigger] (c.f.exp)(x) > 0real,
        forall|x: real| x > 0real ==> #[trigger] (c.power)(x, MINUS_ONE) == -1real / (x * x),
    ensures
        grad(c, softmax_exprs(logits)[i]) == worth(c.f, softmax_exprs(logits)[i]) * (grad(
            c,
            logits[i],
        ) - sum(
            Seq::new(
                logits.len(),
                |k: int| worth(c.f, softmax_exprs(logits)[k]) * grad(c, logits[k]),
            ),
        )),
{
    let n = logits.len();
    let exps = shifted_exponentials(logits);
    let es = worths(c.f, exps);
    let whole = total_expr(exps, n);
    let inverse = power(whole, MINUS_ONE);
    lemma_worth_total(c.f, exps, n);
    assert(es.take(n as int) =~= es);
    let t = sum(es);
    assert forall|k: int| 0 <= k < n implies #[trigger] es[k] > 0real by {
        lemma_worth_shifted(c.f, logits, k);
    }
    lemma_sum_positive(es);
    assert(worth(c.f, whole) == t);
    let top = largest(logits);
    let changes = Seq::new(n, |k: int| grad(c, exps[k]));
    lemma_grad_constant(c, 0, 0, logits, logits);
    assert forall|k: int| 0 <= k < n implies #[trigger] changes[k] == es[k] * grad(
        c,
        logits[k],
    ) by {
        lemma_grad_pair(c, logits[k], top);
        lemma_grad_single(c, minus(logits[k], top));
    }
    lemma_grad_total(c, exps, n);
    lemma_grad_single(c, whole);
    lemma_grad_pair(c, exps[i], inverse);
    lemma_worth_single(c.f, whole, 0);
    let s = sum(changes);
    let shares = Seq::new(n, |k: int| worth(c.f, softmax_exprs(logits)[k]) * grad(c, logits[k]));
    let part = 1real / t;
    assert forall|k: int| 0 <= k < n implies #[trigger] shares[k] == changes[k] * part by {
        lemma_worth_softmax(c.f, logits, k);
        assert(changes[k] == es[k] * grad(c, logits[k]));
        let (e, g) = (es[k], grad(c, logits[k]));
        assert(e * part * g == e * g * part) by (nonlinear_arith);
    }
    lemma_sum_scaled(changes, shares, part);
    lemma_worth_softmax(c.f, logits, i);
    let e = es[i];
    let g = grad(c, logits[i]);
    assert(changes[i] == e * g);
    assert(t > 0real);
    assert((c.power)(t, MINUS_ONE) == -1real / (t * t));
    assert(part * (e * g) + e * (-1real / (t * t) * s) == e * part * (g - s * part))
        by (nonlinear_arith)
        requires
            t > 0real,
            part == 1real / t,
    ;
}

/// How the gradient of a match flows: to the query with the key as its factor, and to the
/// key with the query.
proof fn lemma_gradient_of_a_match(
    c: Calculus,
    q: Seq<Expr>,
    keys: Seq<Seq<Expr>>,
    hs: int,
    t: int,
)
    requires
        0 <= t < keys.len(),
        0 <= hs,
        hs + HEAD_DIM <= q.len(),
        hs + HEAD_DIM <= keys[t].len(),
    ensures
        grad(c, head_logits(q, keys, hs)[t]) == worth(c.f, head_scale()) * sum(
            Seq::new(
                HEAD_DIM as nat,
                |d: int|
                    worth(c.f, keys[t][hs + d]) * grad(c, q[hs + d]) + worth(c.f, q[hs + d]) * grad(
                        c,
                        keys[t][hs + d],
                    ),
            ),
        ),
{
    let (x, y) = (head_part(q, hs), head_part(keys[t], hs));
    let n = HEAD_DIM as nat;
    law_gradient_of_a_scalar_product(c, x, y, n);
    lemma_sums(
        Seq::new(n, |i: int| worth(c.f, y[i]) * grad(c, x[i]) + worth(c.f, x[i]) * grad(c, y[i])),
        Seq::new(
            n,
            |d: int|
                worth(c.f, keys[t][hs + d]) * grad(c, q[hs + d]) + worth(c.f, q[hs + d]) * grad(
                    c,
                    keys[t][hs + d],
                ),
        ),
    );
    lemma_grad_pair(c, constant(ONE), root(number(HEAD_DIM)));
    lemma_grad_pair(c, dot_expr(x, y, n), head_scale());
    let v = worth(c.f, dot_expr(x, y, n));
    assert(v * 0real == 0real) by (nonlinear_arith);
}

/// Attention passes a gradient on to the values of all positions, each with the weight of
/// its position, and to the weights, each with the value. The weights are the softmax of
/// the matches, and a match passes its gradient on to the query and to its key.
pub proof fn law_gradient_of_attention(
    c: Calculus,
    q: Seq<Expr>,
    keys: Seq<Seq<Expr>>,
    values: Seq<Seq<Expr>>,
    h: nat,
    j: int,
)
    requires
        keys.len() == values.len(),
        q.len() == N_EMBD,
        forall|t: int| 0 <= t < keys.len() ==> (#[trigger] keys[t]).len() == N_EMBD,
        forall|t: int| 0 <= t < values.len() ==> (#[trigger] values[t]).len() == N_EMBD,
        h < N_HEAD,
        0 <= j < HEAD_DIM,
    ensures
        ({
            let hs = h * HEAD_DIM;
            let matches = head_logits(q, keys, hs);
            let weights = softmax_exprs(matches);
            &&& matches.len() == keys.len()
            &&& grad(c, attention_exprs(q, keys, values, N_HEAD as nat)[hs + j]) == sum(
                Seq::new(
                    keys.len(),
                    |t: int|
                        worth(c.f, values[t][hs + j]) * grad(c, weights[t]) + worth(
                            c.f,
                            weights[t],
                        ) * grad(c, values[t][hs + j]),
                ),
            )
            &&& forall|t: int|
                0 <= t < keys.len() ==> grad(c, #[trigger] matches[t]) == worth(
                    c.f,
                    quotient(constant(ONE), root(number(HEAD_DIM))),
                ) * sum(
                    Seq::new(
                        HEAD_DIM as nat,
                        |d: int|
                            worth(c.f, keys[t][hs + d]) * grad(c, q[hs + d]) + worth(
                                c.f,
                                q[hs + d],
                            ) * grad(c, keys[t][hs + d]),
                    ),
                )
        }),
{
    let hs = h * HEAD_DIM;
    assert(0 <= hs && hs + HEAD_DIM <= N_EMBD) by (nonlinear_arith)
        requires
            hs == h * HEAD_DIM,
            h + 1 <= N_HEAD,
            N_HEAD * HEAD_DIM == N_EMBD,
    ;
    let n = keys.len();
    let matches = head_logits(q, keys, hs);
    let weights = softmax_exprs(matches);
    let column = head_column(values, n, hs, j);
    lemma_heads(q, keys, values, N_HEAD as nat, h, j);
    law_gradient_of_a_scalar_product(c, weights, column, n);
    let a = Seq::new(
        n,
        |i: int|
            worth(c.f, column[i]) * grad(c, weights[i]) + worth(c.f, weights[i]) * grad(
                c,
                column[i],
            ),
    );
    let b = Seq::new(
        n,
        |t: int|
            worth(c.f, values[t][hs + j]) * grad(c, weights[t]) + worth(c.f, weights[t]) * grad(
                c,
                values[t][hs + j],
            ),
    );
    assert forall|t: int| 0 <= t < n implies #[trigger] a[t] == b[t] by {
        assert(values[t].len() == N_EMBD);
        assert(column[t] == values[t][hs + j]);
    }
    lemma_sums(a, b);
    assert forall|t: int| 0 <= t < n implies grad(c, #[trigger] matches[t]) == worth(
        c.f,
        quotient(constant(ONE), root(number(HEAD_DIM))),
    ) * sum(
        Seq::new(
            HEAD_DIM as nat,
            |d: int|
                worth(c.f, keys[t][hs + d]) * grad(c, q[hs + d]) + worth(c.f, q[hs + d]) * grad(
                    c,
                    keys[t][hs + d],
                ),
        ),
    ) by {
        assert(keys[t].len() == N_EMBD);
        lemma_gradient_of_a_match(c, q, keys, hs, t);
    }
}

/// The gradient of what enters the first layer flows to the row of the token and to the
/// row of the position alike, with the factor of the normalisation.
pub proof fn law_gradient_of_the_embedding(
    c: Calculus,
    w: Weights,
    token_id: int,
    pos_id: int,
) -> (factor: real)
    requires
        0 <= token_id < w["wte"@].len(),
        0 <= pos_id < w["wpe"@].len(),
        w["wte"@][token_id].len() == w["wpe"@][pos_id].len(),
    ensures
        ({
            let t = w["wte"@][token_id];
            let p = w["wpe"@][pos_id];
            let x = embedded(token_id, pos_id, w);
            forall|i: int|
                0 <= i < t.len() ==> worth(c.f, #[trigger] x[i]) == (worth(c.f, t[i]) + worth(
                    c.f,
                    p[i],
                )) * factor && grad(c, x[i]) == factor * (grad(c, t[i]) + grad(c, p[i]))
        }),
{
    let t = w["wte"@][token_id];
    let p = w["wpe"@][pos_id];
    let x = embedded(token_id, pos_id, w);
    let both = sum_exprs(t, p);
    let factor = law_gradient_of_normalisation(c, both);
    assert forall|i: int| 0 <= i < t.len() implies worth(c.f, #[trigger] x[i]) == (worth(c.f, t[i])
        + worth(c.f, p[i])) * factor && grad(c, x[i]) == factor * (grad(c, t[i]) + grad(
        c,
        p[i],
    )) by {
        assert(x[i] == rmsnorm_exprs(both)[i]);
        lemma_worth_pair(c.f, t[i], p[i]);
        law_gradient_of_a_sum(c, t, p, i);
    }
    factor
}

/// The gradient of a query, a key, a value or a hidden entry of a layer flows to its row of
/// the matrix with the normalised vector as its factors, and to the vector with the row
/// times the factor of the normalisation.
pub proof fn law_gradient_of_a_projection(
    c: Calculus,
    x: Seq<Expr>,
    w: Weights,
    l: nat,
    part: Seq<char>,
) -> (factor: real)
    ensures
        ({
            let m = w[layer_part(l, part)];
            forall|r: int|
                0 <= r < m.len() && m[r].len() == x.len() ==> grad(
                    c,
                    #[trigger] projected(x, w, l, part)[r],
                ) == sum(
                    Seq::new(
                        x.len(),
                        |i: int|
                            worth(c.f, x[i]) * factor * grad(c, m[r][i]) + worth(c.f, m[r][i]) * (
                            factor * grad(c, x[i])),
                    ),
                ) && worth(c.f, projected(x, w, l, part)[r]) == sum(
                    Seq::new(x.len(), |i: int| worth(c.f, m[r][i]) * (worth(c.f, x[i]) * factor)),
                )
        }),
{
    let m = w[layer_part(l, part)];
    let y = rmsnorm_exprs(x);
    let factor = law_gradient_of_normalisation(c, x);
    assert forall|r: int| 0 <= r < m.len() && m[r].len() == x.len() implies grad(
        c,
        #[trigger] projected(x, w, l, part)[r],
    ) == sum(
        Seq::new(
            x.len(),
            |i: int|
                worth(c.f, x[i]) * factor * grad(c, m[r][i]) + worth(c.f, m[r][i]) * (factor * grad(
                    c,
                    x[i],
                )),
        ),
    ) && worth(c.f, projected(x, w, l, part)[r]) == sum(
        Seq::new(x.len(), |i: int| worth(c.f, m[r][i]) * (worth(c.f, x[i]) * factor)),
    ) by {
        let n = x.len();
        law_gradient_of_a_linear_layer(c, y, m, r, n);
        let a = Seq::new(
            n,
            |i: int| worth(c.f, y[i]) * grad(c, m[r][i]) + worth(c.f, m[r][i]) * grad(c, y[i]),
        );
        let b = Seq::new(
            n,
            |i: int|
                worth(c.f, x[i]) * factor * grad(c, m[r][i]) + worth(c.f, m[r][i]) * (factor * grad(
                    c,
                    x[i],
                )),
        );
        assert forall|i: int| 0 <= i < n implies #[trigger] a[i] == b[i] by {
            assert(worth(c.f, rmsnorm_exprs(x)[i]) == worth(c.f, x[i]) * factor);
        }
        lemma_sums(a, b);
        law_linear_layer(c.f, y, m, r, n);
        let s = Seq::new(n, |i: int| worth(c.f, m[r][i]) * worth(c.f, y[i]));
        let t = Seq::new(n, |i: int| worth(c.f, m[r][i]) * (worth(c.f, x[i]) * factor));
        assert forall|i: int| 0 <= i < n implies #[trigger] s[i] == t[i] by {
            assert(worth(c.f, rmsnorm_exprs(x)[i]) == worth(c.f, x[i]) * factor);
        }
        lemma_sums(s, t);
    }
    factor
}

/// The first half of a layer passes the gradient on to its input as it is, to the entries
/// of its output matrix, and to the attention.
pub proof fn law_gradient_of_the_first_half(
    c: Calculus,
    x: Seq<Expr>,
    keys: Seq<Seq<Expr>>,
    values: Seq<Seq<Expr>>,
    w: Weights,
    l: nat,
    i: int,
)
    requires
        w[layer_part(l, "attn_wo"@)].len() == x.len(),
        0 <= i < x.len(),
        w[layer_part(l, "attn_wo"@)][i].len() == N_EMBD,
    ensures
        ({
            let row = w[layer_part(l, "attn_wo"@)][i];
            let mixed = attention_exprs(
                projected(x, w, l, "attn_wq"@),
                keys,
                values,
                N_HEAD as nat,
            );
            grad(c, attended(x, keys, values, w, l)[i]) == grad(c, x[i]) + sum(
                Seq::new(
                    N_EMBD as nat,
                    |d: int|
                        worth(c.f, mixed[d]) * grad(c, row[d]) + worth(c.f, row[d]) * grad(
                            c,
                            mixed[d],
                        ),
                ),
            )
        }),
{
    let m = w[layer_part(l, "attn_wo"@)];
    let q = projected(x, w, l, "attn_wq"@);
    let mixed = attention_exprs(q, keys, values, N_HEAD as nat);
    lemma_heads_len(q, keys, values, N_HEAD as nat);
    law_gradient_of_a_linear_layer(c, mixed, m, i, N_EMBD as nat);
    law_gradient_of_a_sum(c, linear_exprs(mixed, m), x, i);
}

/// The second half of a layer passes the gradient on to its input as it is, to the entries
/// of its second matrix, and to the hidden entries that are positive.
pub proof fn law_gradient_of_the_second_half(
    c: Calculus,
    x: Seq<Expr>,
    w: Weights,
    l: nat,
    i: int,
)
    requires
        w[layer_part(l, "mlp_fc2"@)].len() == x.len(),
        0 <= i < x.len(),
        w[layer_part(l, "mlp_fc2"@)][i].len() == w[layer_part(l, "mlp_fc1"@)].len(),
    ensures
        ({
            let row = w[layer_part(l, "mlp_fc2"@)][i];
            let hidden = projected(x, w, l, "mlp_fc1"@);
            grad(c, perceived(x, w, l)[i]) == grad(c, x[i]) + sum(
                Seq::new(
                    row.len(),
                    |d: int|
                        if worth(c.f, hidden[d]) > 0real {
                            worth(c.f, hidden[d]) * grad(c, row[d]) + worth(c.f, row[d]) * grad(
                                c,
                                hidden[d],
                            )
                        } else {
                            0real
                        },
                ),
            )
        }),
{
    let m = w[layer_part(l, "mlp_fc2"@)];
    let row = m[i];
    let hidden = projected(x, w, l, "mlp_fc1"@);
    let active = relu_exprs(hidden);
    let n = row.len();
    law_gradient_of_a_linear_layer(c, active, m, i, n);
    law_gradient_of_a_sum(c, linear_exprs(active, m), x, i);
    let a = Seq::new(
        n,
        |d: int|
            worth(c.f, active[d]) * grad(c, m[i][d]) + worth(c.f, m[i][d]) * grad(c, active[d]),
    );
    let b = Seq::new(
        n,
        |d: int|
            if worth(c.f, hidden[d]) > 0real {
                worth(c.f, hidden[d]) * grad(c, row[d]) + worth(c.f, row[d]) * grad(c, hidden[d])
            } else {
                0real
            },
    );
    assert forall|d: int| 0 <= d < n implies #[trigger] a[d] == b[d] by {
        law_gradient_of_a_rectifier(c, hidden, d);
        lemma_worth_single(c.f, hidden[d], 0);
        let (g, v) = (grad(c, row[d]), worth(c.f, row[d]));
        assert(0real * g + v * 0real == 0real) by (nonlinear_arith);
    }
    lemma_sums(a, b);
}

/// A logit passes its gradient on to its row of the head and to what leaves the layers.
pub proof fn law_gradient_of_a_logit(c: Calculus, s: Stream, w: Weights, r: int)
    requires
        0 <= r < w["lm_head"@].len(),
        w["lm_head"@][r].len() == s.x.len(),
    ensures
        grad(c, head_of(s, w)[r]) == sum(
            Seq::new(
                s.x.len(),
                |i: int|
                    worth(c.f, s.x[i]) * grad(c, w["lm_head"@][r][i]) + worth(
                        c.f,
                        w["lm_head"@][r][i],
                    ) * grad(c, s.x[i]),
            ),
        ),
{
    law_gradient_of_a_linear_layer(c, s.x, w["lm_head"@], r, s.x.len());
}

/// The gradient of the loss at a position: every logit counts with its probability, less
/// one for the logit of the token that follows.
pub proof fn law_gradient_of_the_loss_at_a_position(
    c: Calculus,
    tokens: Seq<usize>,
    w: Weights,
    i: int,
)
    requires
        forall|x: real| #[trigger] (c.f.exp)(x) > 0real,
        forall|x: real| x > 0real ==> #[trigger] (c.power)(x, MINUS_ONE) == -1real / (x * x),
        0 <= i,
        i + 1 < tokens.len(),
        tokens[i + 1] < w["lm_head"@].len(),
    ensures
        ({
            let logits = passes(tokens, w, (i + 1) as nat).logits[i];
            grad(c, loss_at(tokens, w, i)) == sum(
                Seq::new(
                    logits.len(),
                    |k: int| worth(c.f, softmax_exprs(logits)[k]) * grad(c, logits[k]),
                ),
            ) - grad(c, logits[tokens[i + 1] as int])
        }),
{
    let n = (i + 1) as nat;
    let logits = passes(tokens, w, n).logits[i];
    let target = tokens[i + 1] as int;
    lemma_logits_len(tokens, w, n);
    let probs = softmax_exprs(logits);
    let p = probs[target];
    law_softmax_is_a_distribution(c.f, logits);
    assert(worths(c.f, probs)[target] > 0real);
    law_gradient_of_softmax(c, logits, target);
    lemma_grad_single(c, p);
    lemma_grad_single(c, logarithm(p));
    let s = sum(Seq::new(logits.len(), |k: int| worth(c.f, probs[k]) * grad(c, logits[k])));
    let (v, g) = (worth(c.f, p), grad(c, logits[target]));
    assert(-(1real / v * (v * (g - s))) == s - g) by (nonlinear_arith)
        requires
            v > 0real,
    ;
}

/// The gradient of the loss of a document is the mean of the gradients at its positions.
pub proof fn law_gradient_of_the_loss_is_the_mean(
    c: Calculus,
    tokens: Seq<usize>,
    w: Weights,
    n: nat,
)
    requires
        tokens.len() >= 2,
        n <= tokens.len() - 1,
        n <= BLOCK_SIZE,
        n == tokens.len() - 1 || n == BLOCK_SIZE,
    ensures
        grad(c, loss_expr(tokens, w)) * (n as int as real) == sum(
            Seq::new(n, |i: int| grad(c, loss_at(tokens, w, i))),
        ),
{
    let parts = losses(tokens, w, n);
    let all = Seq::new(n, |i: int| grad(c, loss_at(tokens, w, i)));
    let share = quotient(constant(ONE), number(n as usize));
    lemma_grad_total(c, parts, n);
    lemma_sums(Seq::new(n, |i: int| grad(c, parts[i])), all);
    lemma_worth_constant(c.f, n as usize);
    lemma_worth_pair(c.f, constant(ONE), number(n as usize));
    lemma_grad_pair(c, constant(ONE), number(n as usize));
    lemma_grad_pair(c, total_expr(parts, n), share);
    let k = n as int as real;
    let s = sum(all);
    let v = worth(c.f, total_expr(parts, n));
    assert((1real / k * s + v * 0real) * k == s) by (nonlinear_arith)
        requires
            k > 0real,
    ;
}

} // verus!
