//! What the network computes where the arithmetic is exact.
//!
//! Expressions are read here as real numbers. Exponentials, logarithms and the like
//! are whatever functions are given; a law asks of them only what it needs.

use vstd::prelude::*;

use crate::config::EPS_NORM;
use crate::layers::{
    mean_square_expr, rms_scale_expr, rmsnorm_exprs, shifted_exponentials, softmax_exprs,
    square_exprs, total_expr,
};
use crate::tape::{
    constant, cosine, detached, exponential, int_power, largest, logarithm, minus, negated, number,
    plus, power, quotient, rectified, root, times, worth_of, worths_of, Expr, Op, MINUS_HALF,
    MINUS_ONE, ONE, ZERO,
};

verus! {

/// What operations compute beyond sums and products.
pub struct Functions {
    pub exp: spec_fn(real) -> real,
    /// Every operation that is not fixed by [`exact`].
    pub rest: spec_fn(Op, Seq<real>) -> real,
}

/// The product of `n` times the same factor.
pub open spec fn product(x: real, n: nat) -> real
    decreases n,
{
    if n == 0 {
        1real
    } else {
        product(x, (n - 1) as nat) * x
    }
}

/// The greatest of some numbers.
pub open spec fn greatest(xs: Seq<real>) -> real
    decreases xs.len(),
{
    if xs.len() <= 1 {
        xs[0]
    } else if greatest(xs.drop_last()) >= xs.last() {
        greatest(xs.drop_last())
    } else {
        xs.last()
    }
}

/// What an operation computes.
pub open spec fn exact(f: Functions, op: Op, args: Seq<real>) -> real {
    match op {
        Op::Add => args[0] + args[1],
        Op::Mul => args[0] * args[1],
        Op::Neg => -args[0],
        Op::Relu => if args[0] > 0real {
            args[0]
        } else {
            0real
        },
        Op::Exp => (f.exp)(args[0]),
        Op::Number(n) => n as int as real,
        Op::Max => if args.len() > 0 {
            greatest(args)
        } else {
            (f.rest)(op, args)
        },
        Op::Detach => args[0],
        Op::Quotient => args[0] / args[1],
        Op::IntPow(n) => product(args[0], n as nat),
        Op::Const(bits) => if bits == ZERO {
            0real
        } else if bits == ONE {
            1real
        } else {
            (f.rest)(op, args)
        },
        Op::Pow(bits) => if bits == MINUS_ONE {
            1real / args[0]
        } else {
            (f.rest)(op, args)
        },
        _ => (f.rest)(op, args),
    }
}

/// Exact arithmetic with the given functions.
pub open spec fn arithmetic(f: Functions) -> spec_fn(Op, Seq<real>) -> real {
    |op: Op, args: Seq<real>| exact(f, op, args)
}

/// What an expression is worth.
pub open spec fn worth(f: Functions, e: Expr) -> real {
    worth_of(e, arithmetic(f))
}

/// What some expressions are worth.
pub open spec fn worths(f: Functions, es: Seq<Expr>) -> Seq<real> {
    Seq::new(es.len(), |i: int| worth(f, es[i]))
}

/// The sum of some numbers.
pub open spec fn sum(xs: Seq<real>) -> real
    decreases xs.len(),
{
    if xs.len() == 0 {
        0real
    } else {
        sum(xs.drop_last()) + xs.last()
    }
}

/// What the operations on two expressions are worth.
pub proof fn lemma_worth_pair(f: Functions, a: Expr, b: Expr)
    ensures
        worth(f, plus(a, b)) == worth(f, a) + worth(f, b),
        worth(f, minus(a, b)) == worth(f, a) - worth(f, b),
        worth(f, times(a, b)) == worth(f, a) * worth(f, b),
        worth(f, quotient(a, b)) == worth(f, a) / worth(f, b),
{
    let args = worths_of(seq![a, b], arithmetic(f));
    assert(args.len() == 2 && args[0] == worth(f, a) && args[1] == worth(f, b));
    let opposite = negated(b);
    lemma_worth_single(f, b, 0);
    let with_opposite = worths_of(seq![a, opposite], arithmetic(f));
    assert(with_opposite.len() == 2 && with_opposite[0] == worth(f, a) && with_opposite[1] == worth(
        f,
        opposite,
    ));
}

/// What the operations on one expression are worth.
pub proof fn lemma_worth_single(f: Functions, a: Expr, n: usize)
    ensures
        worth(f, negated(a)) == -worth(f, a),
        worth(f, power(a, MINUS_ONE)) == 1real / worth(f, a),
        worth(f, exponential(a)) == (f.exp)(worth(f, a)),
        worth(f, int_power(a, n)) == product(worth(f, a), n as nat),
        worth(f, detached(a)) == worth(f, a),
        worth(f, power(a, MINUS_HALF)) == (f.rest)(Op::Pow(MINUS_HALF), seq![worth(f, a)]),
        worth(f, logarithm(a)) == (f.rest)(Op::Log, seq![worth(f, a)]),
        worth(f, root(a)) == (f.rest)(Op::Root, seq![worth(f, a)]),
        worth(f, cosine(a)) == (f.rest)(Op::Cosine, seq![worth(f, a)]),
        worth(f, rectified(a)) == if worth(f, a) > 0real {
            worth(f, a)
        } else {
            0real
        },
{
    let args = worths_of(seq![a], arithmetic(f));
    assert(args.len() == 1 && args[0] == worth(f, a));
    assert(args =~= seq![worth(f, a)]);
}

/// What constants are worth.
pub proof fn lemma_worth_constant(f: Functions, n: usize)
    ensures
        worth(f, constant(ZERO)) == 0real,
        worth(f, constant(ONE)) == 1real,
        worth(f, number(n)) == n as int as real,
{
}

/// A total is worth the sum of what the summands are worth.
pub proof fn lemma_worth_total(f: Functions, a: Seq<Expr>, n: nat)
    requires
        n <= a.len(),
    ensures
        worth(f, total_expr(a, n)) == sum(worths(f, a).take(n as int)),
    decreases n,
{
    let xs = worths(f, a).take(n as int);
    if n > 0 {
        lemma_worth_total(f, a, (n - 1) as nat);
        lemma_worth_pair(f, total_expr(a, (n - 1) as nat), a[n - 1]);
        assert(xs.drop_last() =~= worths(f, a).take(n - 1));
    }
}

/// A common factor can be taken out of a sum.
pub proof fn lemma_sum_scaled(xs: Seq<real>, ys: Seq<real>, c: real)
    requires
        xs.len() == ys.len(),
        forall|i: int| 0 <= i < xs.len() ==> #[trigger] ys[i] == xs[i] * c,
    ensures
        sum(ys) == sum(xs) * c,
    decreases xs.len(),
{
    if xs.len() > 0 {
        let (s, x) = (sum(xs.drop_last()), xs.last());
        assert forall|i: int| 0 <= i < xs.len() - 1 implies #[trigger] ys.drop_last()[i]
            == xs.drop_last()[i] * c by {
            assert(ys[i] == xs[i] * c);
        }
        lemma_sum_scaled(xs.drop_last(), ys.drop_last(), c);
        assert(ys[ys.len() - 1] == xs[xs.len() - 1] * c);
        assert((s + x) * c == s * c + x * c) by (nonlinear_arith);
    } else {
        assert(0real * c == 0real) by (nonlinear_arith);
    }
}

/// Positive numbers, of which there are some, have a positive sum.
pub proof fn lemma_sum_positive(xs: Seq<real>)
    requires
        forall|i: int| 0 <= i < xs.len() ==> #[trigger] xs[i] > 0real,
    ensures
        sum(xs) >= 0real,
        xs.len() > 0 ==> sum(xs) > 0real,
    decreases xs.len(),
{
    if xs.len() > 0 {
        assert forall|i: int| 0 <= i < xs.len() - 1 implies #[trigger] xs.drop_last()[i]
            > 0real by {
            assert(xs[i] > 0real);
        }
        lemma_sum_positive(xs.drop_last());
        assert(xs[xs.len() - 1] > 0real);
    }
}

/// What a probability is worth: its exponential, divided by the sum of all.
pub proof fn lemma_worth_softmax(f: Functions, logits: Seq<Expr>, i: int)
    requires
        0 <= i < logits.len(),
    ensures
        worth(f, softmax_exprs(logits)[i]) == worths(f, shifted_exponentials(logits))[i] * (1real
            / sum(worths(f, shifted_exponentials(logits)))),
{
    let exps = shifted_exponentials(logits);
    let n = logits.len();
    lemma_worth_total(f, exps, n);
    assert(worths(f, exps).take(n as int) =~= worths(f, exps));
    lemma_worth_single(f, total_expr(exps, n), 0);
    lemma_worth_pair(f, exps[i], power(total_expr(exps, n), MINUS_ONE));
}

/// What an exponential of the softmax is worth.
pub proof fn lemma_worth_shifted(f: Functions, logits: Seq<Expr>, i: int)
    requires
        0 <= i < logits.len(),
    ensures
        worths(f, shifted_exponentials(logits))[i] == (f.exp)(
            worths(f, logits)[i] + -worth(f, largest(logits)),
        ),
{
    let top = largest(logits);
    lemma_worth_single(f, top, 0);
    lemma_worth_pair(f, logits[i], negated(top));
    lemma_worth_single(f, minus(logits[i], top), 0);
}

/// The probabilities of a softmax are positive and add up to one.
pub proof fn law_softmax_is_a_distribution(f: Functions, logits: Seq<Expr>)
    requires
        logits.len() > 0,
        forall|x: real| #[trigger] (f.exp)(x) > 0real,
    ensures
        forall|i: int|
            0 <= i < logits.len() ==> #[trigger] worths(f, softmax_exprs(logits))[i] > 0real,
        sum(worths(f, softmax_exprs(logits))) == 1real,
{
    let probs = worths(f, softmax_exprs(logits));
    let exps = worths(f, shifted_exponentials(logits));
    let total = sum(exps);
    assert forall|i: int| 0 <= i < exps.len() implies #[trigger] exps[i] > 0real by {
        lemma_worth_shifted(f, logits, i);
    }
    lemma_sum_positive(exps);
    let inverse = 1real / total;
    assert(inverse > 0real && total * inverse == 1real) by (nonlinear_arith)
        requires
            total > 0real,
            inverse == 1real / total,
    ;
    assert forall|i: int| 0 <= i < exps.len() implies #[trigger] probs[i] == exps[i] * inverse by {
        lemma_worth_softmax(f, logits, i);
    }
    assert forall|i: int| 0 <= i < logits.len() implies #[trigger] probs[i] > 0real by {
        let e = exps[i];
        assert(e * inverse > 0real) by (nonlinear_arith)
            requires
                e > 0real,
                inverse > 0real,
        ;
    }
    lemma_sum_scaled(exps, probs, inverse);
}

/// Whether the exponential of a sum is the product of the exponentials.
pub open spec fn sum_to_product(exp: spec_fn(real) -> real, x: real, y: real) -> bool {
    exp(x + y) == exp(x) * exp(y)
}

/// Subtracting the largest logit does not change the probabilities: each is the
/// exponential of its logit, divided by the sum of all of them.
pub proof fn law_softmax_ignores_the_shift(f: Functions, logits: Seq<Expr>, i: int)
    requires
        0 <= i < logits.len(),
        forall|x: real| #[trigger] (f.exp)(x) > 0real,
        forall|x: real, y: real| #[trigger] sum_to_product(f.exp, x, y),
    ensures
        worths(f, softmax_exprs(logits))[i] == (f.exp)(worths(f, logits)[i]) / sum(
            worths(f, logits).map_values(|x: real| (f.exp)(x)),
        ),
{
    let plain = worths(f, logits).map_values(|x: real| (f.exp)(x));
    let shifted = worths(f, shifted_exponentials(logits));
    let m = -worth(f, largest(logits));
    let c = (f.exp)(m);
    assert(c > 0real);
    assert forall|k: int| 0 <= k < plain.len() implies #[trigger] shifted[k] == plain[k] * c by {
        lemma_worth_shifted(f, logits, k);
        assert(sum_to_product(f.exp, worths(f, logits)[k], m));
    }
    lemma_sum_scaled(plain, shifted, c);
    lemma_sum_positive(plain);
    lemma_worth_softmax(f, logits, i);
    let (e, s) = (plain[i], sum(plain));
    assert(e * c * (1real / (s * c)) == e / s) by (nonlinear_arith)
        requires
            s > 0real,
            c > 0real,
    ;
}

/// The squares of some numbers.
pub open spec fn squares(xs: Seq<real>) -> Seq<real> {
    Seq::new(xs.len(), |i: int| xs[i] * xs[i])
}

/// The mean of the squares of some numbers.
pub open spec fn mean_square(xs: Seq<real>) -> real {
    sum(squares(xs)) / (xs.len() as int as real)
}

/// Whether a number to the power `-0.5` is one over its square root.
pub open spec fn inverse_root(f: Functions, x: real) -> bool {
    let r = (f.rest)(Op::Pow(MINUS_HALF), seq![x]);
    r * r * x == 1real
}

proof fn lemma_squares_positive(xs: Seq<real>)
    ensures
        sum(squares(xs)) >= 0real,
    decreases xs.len(),
{
    if xs.len() > 0 {
        let x = xs.last();
        lemma_squares_positive(xs.drop_last());
        assert(squares(xs).drop_last() =~= squares(xs.drop_last()));
        assert(x * x >= 0real) by (nonlinear_arith);
    }
}

/// What the factor of a normalisation is worth.
pub proof fn lemma_worth_scale(f: Functions, x: Seq<Expr>)
    requires
        x.len() <= usize::MAX,
    ensures
        worth(f, rms_scale_expr(x)) == (f.rest)(
            Op::Pow(MINUS_HALF),
            seq![mean_square(worths(f, x)) + worth(f, constant(EPS_NORM))],
        ),
{
    let sq = square_exprs(x);
    let n = x.len();
    let mean = mean_square_expr(x);
    let shifted = plus(mean, constant(EPS_NORM));
    lemma_worth_total(f, sq, n);
    assert forall|i: int| 0 <= i < n implies worths(f, sq)[i] == squares(worths(f, x))[i] by {
        lemma_worth_pair(f, x[i], x[i]);
    }
    assert(worths(f, sq).take(n as int) =~= squares(worths(f, x)));
    lemma_worth_constant(f, n as usize);
    lemma_worth_pair(f, total_expr(sq, n), number(n as usize));
    lemma_worth_pair(f, mean, constant(EPS_NORM));
    lemma_worth_single(f, shifted, 0);
    lemma_worth_single(f, power(shifted, MINUS_HALF), 0);
}

/// Normalising brings the mean square `s` of the values to `s / (s + eps)`, which is
/// one but for the small number that keeps it from dividing by zero.
pub proof fn law_rmsnorm_mean_square(f: Functions, x: Seq<Expr>)
    requires
        0 < x.len() <= usize::MAX,
        worth(f, constant(EPS_NORM)) > 0real,
        forall|a: real| a > 0real ==> #[trigger] inverse_root(f, a),
    ensures
        mean_square(worths(f, rmsnorm_exprs(x))) == mean_square(worths(f, x)) / (mean_square(
            worths(f, x),
        ) + worth(f, constant(EPS_NORM))),
{
    let xs = worths(f, x);
    let ys = worths(f, rmsnorm_exprs(x));
    let eps = worth(f, constant(EPS_NORM));
    let r = worth(f, rms_scale_expr(x));
    let n = x.len() as int as real;
    let total = sum(squares(xs));
    let s = mean_square(xs);
    lemma_worth_scale(f, x);
    lemma_squares_positive(xs);
    assert(s >= 0real) by (nonlinear_arith)
        requires
            total >= 0real,
            n > 0real,
            s == total / n,
    ;
    assert(inverse_root(f, s + eps));
    assert forall|i: int| 0 <= i < xs.len() implies #[trigger] squares(ys)[i] == squares(xs)[i] * (r
        * r) by {
        lemma_worth_pair(f, x[i], rms_scale_expr(x));
        let a = xs[i];
        assert(ys[i] == a * r);
        assert((a * r) * (a * r) == (a * a) * (r * r)) by (nonlinear_arith);
    }
    lemma_sum_scaled(squares(xs), squares(ys), r * r);
    let t = s + eps;
    assert(total * (r * r) / n == s / t) by (nonlinear_arith)
        requires
            n > 0real,
            t > 0real,
            s == total / n,
            r * r * t == 1real,
    ;
}

} // verus!
