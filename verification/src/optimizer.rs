//! Where the parameters start, and how a training step changes them: normally
//! distributed initial values, and the Adam optimizer with a learning rate that
//! falls to zero.

use vstd::prelude::*;

use crate::config::{
    BETA1, BETA2, EPS_ADAM, INIT_STD, LEARNING_RATE, LEAST_DRAW, NUM_STEPS, PI,
};
use crate::exact::{
    arithmetic, greatest, lemma_worth_constant, lemma_worth_pair, lemma_worth_single, product, worth,
    Functions,
};
use crate::tape::{
    constant, cosine, int_power, largest, logarithm, minus, number, pick, plus, quotient, root, times,
    worths_of, Expr, Op, Tape, MINUS_TWO, ONE, TWO, ZERO,
};

verus! {

/// The distance from the origin that the first draw gives.
pub open spec fn radius_expr(u1: Expr) -> Expr {
    root(times(constant(MINUS_TWO), logarithm(largest(seq![u1, constant(LEAST_DRAW)]))))
}

/// The part of a unit vector that the second draw gives.
pub open spec fn direction_expr(u2: Expr) -> Expr {
    cosine(times(times(constant(TWO), constant(PI)), u2))
}

/// A normally distributed number, by the Box-Muller transform of two draws that are
/// uniform between zero and one.
pub open spec fn normal_expr(u1: Expr, u2: Expr) -> Expr {
    times(radius_expr(u1), direction_expr(u2))
}

/// The initial value of a parameter.
pub open spec fn initial_expr(u1: Expr, u2: Expr) -> Expr {
    times(normal_expr(u1, u2), constant(INIT_STD))
}

/// Puts the distance from the origin that the first draw gives on the tape.
fn radius(tape: &mut Tape, u1: usize) -> (id: usize)
    requires
        old(tape).wf(),
        u1 < old(tape)@.len(),
    ensures
        old(tape).gains(*final(tape), id, radius_expr(old(tape)@[u1 as int])),
{
    let least = tape.constant(LEAST_DRAW);
    let candidates = vec![u1, least];
    let ghost there = tape@;
    assert(pick(there, candidates@) =~= seq![there[u1 as int], there[least as int]]);
    let draw = tape.max_of(&candidates);
    let log = tape.log(draw);
    let minus_two = tape.constant(MINUS_TWO);
    let square = tape.mul(minus_two, log);
    tape.root(square)
}

/// Puts the part of a unit vector that the second draw gives on the tape.
fn direction(tape: &mut Tape, u2: usize) -> (id: usize)
    requires
        old(tape).wf(),
        u2 < old(tape)@.len(),
    ensures
        old(tape).gains(*final(tape), id, direction_expr(old(tape)@[u2 as int])),
{
    let two = tape.constant(TWO);
    let pi = tape.constant(PI);
    let turn = tape.mul(two, pi);
    let angle = tape.mul(turn, u2);
    tape.cosine(angle)
}

/// Puts a normally distributed number on the tape.
pub fn normal(tape: &mut Tape, u1: usize, u2: usize) -> (id: usize)
    requires
        old(tape).wf(),
        u1 < old(tape)@.len(),
        u2 < old(tape)@.len(),
    ensures
        old(tape).gains(
            *final(tape),
            id,
            normal_expr(old(tape)@[u1 as int], old(tape)@[u2 as int]),
        ),
{
    let r = radius(tape, u1);
    let d = direction(tape, u2);
    tape.mul(r, d)
}

/// Puts the initial value of a parameter on the tape.
pub fn initial_value(tape: &mut Tape, u1: usize, u2: usize) -> (id: usize)
    requires
        old(tape).wf(),
        u1 < old(tape)@.len(),
        u2 < old(tape)@.len(),
    ensures
        old(tape).gains(
            *final(tape),
            id,
            initial_expr(old(tape)@[u1 as int], old(tape)@[u2 as int]),
        ),
{
    let z = normal(tape, u1, u2);
    let std = tape.constant(INIT_STD);
    tape.mul(z, std)
}

/// The learning rate of a step, which falls from that of the first step to zero.
pub open spec fn rate_expr(step: usize) -> Expr {
    times(
        constant(LEARNING_RATE),
        minus(constant(ONE), quotient(number(step), number(NUM_STEPS))),
    )
}

/// The first moment after a step: a running mean of the gradient.
pub open spec fn first_moment(m: Expr, g: Expr) -> Expr {
    plus(times(constant(BETA1), m), times(minus(constant(ONE), constant(BETA1)), g))
}

/// The second moment after a step: a running mean of the squared gradient.
pub open spec fn second_moment(v: Expr, g: Expr) -> Expr {
    plus(times(constant(BETA2), v), times(times(minus(constant(ONE), constant(BETA2)), g), g))
}

/// A moment without the bias towards the zero that it started from.
pub open spec fn unbiased(moment: Expr, beta: u64, step: usize) -> Expr {
    quotient(moment, minus(constant(ONE), int_power(constant(beta), (step + 1) as usize)))
}

/// The learning rate times the unbiased first moment.
pub open spec fn pull_expr(m: Expr, step: usize) -> Expr {
    times(rate_expr(step), unbiased(m, BETA1, step))
}

/// The root of the unbiased second moment, kept from zero.
pub open spec fn spread_expr(v: Expr, step: usize) -> Expr {
    plus(root(unbiased(v, BETA2, step)), constant(EPS_ADAM))
}

/// The parameter after a step, where `m` and `v` are the moments after the step.
pub open spec fn updated(data: Expr, m: Expr, v: Expr, step: usize) -> Expr {
    minus(data, quotient(pull_expr(m, step), spread_expr(v, step)))
}

/// A parameter and its moments after a step.
pub struct Update {
    pub data: usize,
    pub first: usize,
    pub second: usize,
}

/// Puts the learning rate of a step on the tape.
pub fn rate(tape: &mut Tape, step: usize) -> (id: usize)
    requires
        old(tape).wf(),
    ensures
        old(tape).gains(*final(tape), id, rate_expr(step)),
{
    let full = tape.constant(LEARNING_RATE);
    let one = tape.constant(ONE);
    let done = tape.number(step);
    let all = tape.number(NUM_STEPS);
    let share = tape.quotient(done, all);
    let remaining = tape.sub(one, share);
    tape.mul(full, remaining)
}

/// Puts a moment without its bias on the tape.
pub fn without_bias(tape: &mut Tape, moment: usize, beta: u64, step: usize) -> (id: usize)
    requires
        old(tape).wf(),
        moment < old(tape)@.len(),
        step < usize::MAX,
    ensures
        old(tape).gains(*final(tape), id, unbiased(old(tape)@[moment as int], beta, step)),
{
    let one = tape.constant(ONE);
    let kept = tape.constant(beta);
    let all_kept = tape.int_pow(kept, step + 1);
    let gained = tape.sub(one, all_kept);
    tape.quotient(moment, gained)
}

/// Puts the first moment after a step on the tape.
fn next_first(tape: &mut Tape, m: usize, g: usize) -> (id: usize)
    requires
        old(tape).wf(),
        m < old(tape)@.len(),
        g < old(tape)@.len(),
    ensures
        old(tape).gains(
            *final(tape),
            id,
            first_moment(old(tape)@[m as int], old(tape)@[g as int]),
        ),
{
    let one = tape.constant(ONE);
    let beta = tape.constant(BETA1);
    let kept = tape.mul(beta, m);
    let gain = tape.sub(one, beta);
    let added = tape.mul(gain, g);
    tape.add(kept, added)
}

/// Puts the second moment after a step on the tape.
fn next_second(tape: &mut Tape, v: usize, g: usize) -> (id: usize)
    requires
        old(tape).wf(),
        v < old(tape)@.len(),
        g < old(tape)@.len(),
    ensures
        old(tape).gains(
            *final(tape),
            id,
            second_moment(old(tape)@[v as int], old(tape)@[g as int]),
        ),
{
    let one = tape.constant(ONE);
    let beta = tape.constant(BETA2);
    let kept = tape.mul(beta, v);
    let gain = tape.sub(one, beta);
    let half = tape.mul(gain, g);
    let added = tape.mul(half, g);
    tape.add(kept, added)
}

/// Puts the learning rate times the unbiased first moment on the tape.
fn pull(tape: &mut Tape, m: usize, step: usize) -> (id: usize)
    requires
        old(tape).wf(),
        m < old(tape)@.len(),
        step < usize::MAX,
    ensures
        old(tape).gains(*final(tape), id, pull_expr(old(tape)@[m as int], step)),
{
    let m_hat = without_bias(tape, m, BETA1, step);
    let lr = rate(tape, step);
    tape.mul(lr, m_hat)
}

/// Puts the root of the unbiased second moment, kept from zero, on the tape.
fn spread(tape: &mut Tape, v: usize, step: usize) -> (id: usize)
    requires
        old(tape).wf(),
        v < old(tape)@.len(),
        step < usize::MAX,
    ensures
        old(tape).gains(*final(tape), id, spread_expr(old(tape)@[v as int], step)),
{
    let v_hat = without_bias(tape, v, BETA2, step);
    let deviation = tape.root(v_hat);
    let eps = tape.constant(EPS_ADAM);
    tape.add(deviation, eps)
}

/// Puts the parameter after a step on the tape.
fn next_data(tape: &mut Tape, data: usize, m: usize, v: usize, step: usize) -> (id: usize)
    requires
        old(tape).wf(),
        data < old(tape)@.len(),
        m < old(tape)@.len(),
        v < old(tape)@.len(),
        step < usize::MAX,
    ensures
        old(tape).gains(
            *final(tape),
            id,
            updated(old(tape)@[data as int], old(tape)@[m as int], old(tape)@[v as int], step),
        ),
{
    let above = pull(tape, m, step);
    let below = spread(tape, v, step);
    let change = tape.quotient(above, below);
    tape.sub(data, change)
}

/// Puts on the tape what a training step makes of a parameter and its moments.
pub fn adam_update(
    tape: &mut Tape,
    data: usize,
    grad: usize,
    first: usize,
    second: usize,
    step: usize,
) -> (update: Update)
    requires
        old(tape).wf(),
        data < old(tape)@.len(),
        grad < old(tape)@.len(),
        first < old(tape)@.len(),
        second < old(tape)@.len(),
        step < usize::MAX,
    ensures
        ({
            let before = old(tape)@;
            let g = before[grad as int];
            let m = first_moment(before[first as int], g);
            let v = second_moment(before[second as int], g);
            &&& old(tape).gains(*final(tape), update.first, m)
            &&& old(tape).gains(*final(tape), update.second, v)
            &&& old(tape).gains(
                *final(tape),
                update.data,
                updated(before[data as int], m, v, step),
            )
        }),
{
    let m = next_first(tape, first, grad);
    let v = next_second(tape, second, grad);
    let data = next_data(tape, data, m, v, step);
    Update { data, first: m, second: v }
}

/// The learning rate falls evenly, from that of the first step to zero.
pub proof fn law_rate_falls_to_zero(f: Functions, step: usize)
    ensures
        worth(f, rate_expr(step)) == worth(f, constant(LEARNING_RATE)) * (1real - step as int as real
            / NUM_STEPS as int as real),
        worth(f, rate_expr(0)) == worth(f, constant(LEARNING_RATE)),
        worth(f, rate_expr(NUM_STEPS)) == 0real,
{
    lemma_rate(f, step);
    lemma_rate(f, 0);
    lemma_rate(f, NUM_STEPS);
    let full = worth(f, constant(LEARNING_RATE));
    let all = NUM_STEPS as int as real;
    assert(full * (1real - 0real / all) == full && full * (1real - all / all) == 0real)
        by (nonlinear_arith)
        requires
            all > 0real,
    ;
}

proof fn lemma_rate(f: Functions, step: usize)
    ensures
        worth(f, rate_expr(step)) == worth(f, constant(LEARNING_RATE)) * (1real - step as int as real
            / NUM_STEPS as int as real),
{
    let share = quotient(number(step), number(NUM_STEPS));
    lemma_worth_constant(f, step);
    lemma_worth_constant(f, NUM_STEPS);
    lemma_worth_pair(f, number(step), number(NUM_STEPS));
    lemma_worth_pair(f, constant(ONE), share);
    lemma_worth_pair(f, constant(LEARNING_RATE), minus(constant(ONE), share));
}

/// In the first step, the moments without their bias are the gradient and its square.
pub proof fn law_first_step_is_unbiased(f: Functions, m: Expr, v: Expr, g: Expr)
    requires
        worth(f, m) == 0real,
        worth(f, v) == 0real,
        worth(f, constant(BETA1)) != 1real,
        worth(f, constant(BETA2)) != 1real,
    ensures
        worth(f, unbiased(first_moment(m, g), BETA1, 0)) == worth(f, g),
        worth(f, unbiased(second_moment(v, g), BETA2, 0)) == worth(f, g) * worth(f, g),
{
    lemma_moments(f, m, v, g);
    lemma_unbiased(f, first_moment(m, g), BETA1, 0);
    lemma_unbiased(f, second_moment(v, g), BETA2, 0);
    let b1 = worth(f, constant(BETA1));
    let b2 = worth(f, constant(BETA2));
    let x = worth(f, g);
    reveal_with_fuel(product, 2);
    assert((b1 * 0real + (1real - b1) * x) / (1real - 1real * b1) == x) by (nonlinear_arith)
        requires
            b1 != 1real,
    ;
    assert((b2 * 0real + (1real - b2) * x * x) / (1real - 1real * b2) == x * x) by (nonlinear_arith)
        requires
            b2 != 1real,
    ;
}

proof fn lemma_moments(f: Functions, m: Expr, v: Expr, g: Expr)
    ensures
        ({
            let b1 = worth(f, constant(BETA1));
            let b2 = worth(f, constant(BETA2));
            let x = worth(f, g);
            &&& worth(f, first_moment(m, g)) == b1 * worth(f, m) + (1real - b1) * x
            &&& worth(f, second_moment(v, g)) == b2 * worth(f, v) + (1real - b2) * x * x
        }),
{
    let one = constant(ONE);
    lemma_worth_constant(f, 0);
    lemma_worth_pair(f, constant(BETA1), m);
    lemma_worth_pair(f, one, constant(BETA1));
    lemma_worth_pair(f, minus(one, constant(BETA1)), g);
    lemma_worth_pair(f, times(constant(BETA1), m), times(minus(one, constant(BETA1)), g));
    let gain = times(minus(one, constant(BETA2)), g);
    lemma_worth_pair(f, constant(BETA2), v);
    lemma_worth_pair(f, one, constant(BETA2));
    lemma_worth_pair(f, minus(one, constant(BETA2)), g);
    lemma_worth_pair(f, gain, g);
    lemma_worth_pair(f, times(constant(BETA2), v), times(gain, g));
}

proof fn lemma_unbiased(f: Functions, moment: Expr, beta: u64, step: usize)
    requires
        step < usize::MAX,
    ensures
        worth(f, unbiased(moment, beta, step)) == worth(f, moment) / (1real - product(
            worth(f, constant(beta)),
            (step + 1) as nat,
        )),
{
    let one = constant(ONE);
    let kept = int_power(constant(beta), (step + 1) as usize);
    lemma_worth_constant(f, 0);
    lemma_worth_single(f, constant(beta), (step + 1) as usize);
    lemma_worth_pair(f, one, kept);
    lemma_worth_pair(f, moment, minus(one, kept));
}

/// A parameter without a gradient, now and before, stays as it is.
pub proof fn law_no_gradient_no_change(
    f: Functions,
    data: Expr,
    m: Expr,
    v: Expr,
    g: Expr,
    step: usize,
)
    requires
        step < usize::MAX,
        worth(f, m) == 0real,
        worth(f, v) == 0real,
        worth(f, g) == 0real,
        product(worth(f, constant(BETA1)), (step + 1) as nat) != 1real,
        worth(f, spread_expr(second_moment(v, g), step)) != 0real,
    ensures
        worth(f, first_moment(m, g)) == 0real,
        worth(f, second_moment(v, g)) == 0real,
        worth(f, updated(data, first_moment(m, g), second_moment(v, g), step)) == worth(f, data),
{
    let new_m = first_moment(m, g);
    let new_v = second_moment(v, g);
    let above = pull_expr(new_m, step);
    let below = spread_expr(new_v, step);
    lemma_moments(f, m, v, g);
    let b1 = worth(f, constant(BETA1));
    let b2 = worth(f, constant(BETA2));
    assert(b1 * 0real + (1real - b1) * 0real == 0real) by (nonlinear_arith);
    assert(b2 * 0real + (1real - b2) * 0real * 0real == 0real) by (nonlinear_arith);
    lemma_unbiased(f, new_m, BETA1, step);
    lemma_worth_pair(f, rate_expr(step), unbiased(new_m, BETA1, step));
    lemma_worth_pair(f, above, below);
    lemma_worth_pair(f, data, quotient(above, below));
    let kept = product(b1, (step + 1) as nat);
    let lr = worth(f, rate_expr(step));
    let s = worth(f, below);
    assert(0real / (1real - kept) == 0real) by (nonlinear_arith)
        requires
            kept != 1real,
    ;
    assert(lr * 0real == 0real) by (nonlinear_arith);
    assert(0real / s == 0real) by (nonlinear_arith)
        requires
            s != 0real,
    ;
}

/// The moments move towards the gradient and its square: a fixed share is kept, and the
/// rest comes from the gradient.
pub proof fn law_moments(f: Functions, m: Expr, v: Expr, g: Expr)
    ensures
        worth(f, first_moment(m, g)) == worth(f, constant(BETA1)) * worth(f, m) + (1real - worth(
            f,
            constant(BETA1),
        )) * worth(f, g),
        worth(f, second_moment(v, g)) == worth(f, constant(BETA2)) * worth(f, v) + (1real - worth(
            f,
            constant(BETA2),
        )) * worth(f, g) * worth(f, g),
{
    lemma_moments(f, m, v, g);
}

/// The bias of a moment after any step is divided out: it is one less the share that is
/// kept in a step, raised to the number of steps.
pub proof fn law_bias_is_divided_out(f: Functions, moment: Expr, beta: u64, step: usize)
    requires
        step < usize::MAX,
    ensures
        worth(f, unbiased(moment, beta, step)) == worth(f, moment) / (1real - product(
            worth(f, constant(beta)),
            step as nat + 1,
        )),
{
    lemma_unbiased(f, moment, beta, step);
}

/// The first moment after `n` steps with the same gradient, from zero.
pub open spec fn steady_first(g: Expr, n: nat) -> Expr
    decreases n,
{
    if n == 0 {
        constant(ZERO)
    } else {
        first_moment(steady_first(g, (n - 1) as nat), g)
    }
}

/// The second moment after `n` steps with the same gradient, from zero.
pub open spec fn steady_second(g: Expr, n: nat) -> Expr
    decreases n,
{
    if n == 0 {
        constant(ZERO)
    } else {
        second_moment(steady_second(g, (n - 1) as nat), g)
    }
}

proof fn lemma_steady(f: Functions, g: Expr, n: nat)
    ensures
        worth(f, steady_first(g, n)) == worth(f, g) * (1real - product(
            worth(f, constant(BETA1)),
            n,
        )),
        worth(f, steady_second(g, n)) == worth(f, g) * worth(f, g) * (1real - product(
            worth(f, constant(BETA2)),
            n,
        )),
    decreases n,
{
    let x = worth(f, g);
    let b1 = worth(f, constant(BETA1));
    let b2 = worth(f, constant(BETA2));
    if n == 0 {
        lemma_worth_constant(f, 0);
        assert(x * (1real - 1real) == 0real && x * x * (1real - 1real) == 0real)
            by (nonlinear_arith);
    } else {
        let k = (n - 1) as nat;
        lemma_steady(f, g, k);
        lemma_moments(f, steady_first(g, k), steady_second(g, k), g);
        let p1 = product(b1, k);
        let p2 = product(b2, k);
        assert(b1 * (x * (1real - p1)) + (1real - b1) * x == x * (1real - p1 * b1))
            by (nonlinear_arith);
        assert(b2 * (x * x * (1real - p2)) + (1real - b2) * x * x == x * x * (1real - p2 * b2))
            by (nonlinear_arith);
    }
}

/// A gradient that stays the same is what the unbiased moments say, after any number of
/// steps: the first is the gradient, and the second its square.
pub proof fn law_steady_gradient_is_unbiased(f: Functions, g: Expr, step: usize)
    requires
        step < usize::MAX,
        product(worth(f, constant(BETA1)), step as nat + 1) != 1real,
        product(worth(f, constant(BETA2)), step as nat + 1) != 1real,
    ensures
        worth(f, unbiased(steady_first(g, step as nat + 1), BETA1, step)) == worth(f, g),
        worth(f, unbiased(steady_second(g, step as nat + 1), BETA2, step)) == worth(f, g) * worth(
            f,
            g,
        ),
{
    let n = step as nat + 1;
    lemma_steady(f, g, n);
    lemma_unbiased(f, steady_first(g, n), BETA1, step);
    lemma_unbiased(f, steady_second(g, n), BETA2, step);
    let x = worth(f, g);
    let p1 = product(worth(f, constant(BETA1)), n);
    let p2 = product(worth(f, constant(BETA2)), n);
    assert(x * (1real - p1) / (1real - p1) == x) by (nonlinear_arith)
        requires
            p1 != 1real,
    ;
    assert(x * x * (1real - p2) / (1real - p2) == x * x) by (nonlinear_arith)
        requires
            p2 != 1real,
    ;
}

/// At every step the parameter goes against its unbiased first moment: it loses the
/// learning rate of the step, which falls evenly to zero, times that moment, over the
/// root of the unbiased second moment with the small number added. With a positive rate
/// and divisor it falls where that moment is positive, and rises where it is negative.
pub proof fn law_step_goes_against_the_gradient(
    f: Functions,
    data: Expr,
    m: Expr,
    v: Expr,
    step: usize,
)
    requires
        step < usize::MAX,
    ensures
        ({
            let rate = worth(f, constant(LEARNING_RATE)) * (1real - step as int as real
                / NUM_STEPS as int as real);
            let m_hat = worth(f, m) / (1real - product(
                worth(f, constant(BETA1)),
                step as nat + 1,
            ));
            let v_hat = worth(f, v) / (1real - product(
                worth(f, constant(BETA2)),
                step as nat + 1,
            ));
            let divisor = (f.rest)(Op::Root, seq![v_hat]) + worth(f, constant(EPS_ADAM));
            let x = worth(f, data);
            let y = worth(f, updated(data, m, v, step));
            &&& y == x - rate * m_hat / divisor
            &&& rate > 0real && divisor > 0real && m_hat > 0real ==> y < x
            &&& rate > 0real && divisor > 0real && m_hat < 0real ==> y > x
        }),
{
    let hat = unbiased(m, BETA1, step);
    let spread_hat = unbiased(v, BETA2, step);
    lemma_rate(f, step);
    lemma_unbiased(f, m, BETA1, step);
    lemma_unbiased(f, v, BETA2, step);
    lemma_worth_pair(f, rate_expr(step), hat);
    lemma_worth_single(f, spread_hat, 0);
    lemma_worth_pair(f, root(spread_hat), constant(EPS_ADAM));
    lemma_worth_pair(f, pull_expr(m, step), spread_expr(v, step));
    lemma_worth_pair(f, data, quotient(pull_expr(m, step), spread_expr(v, step)));
    let rate = worth(f, rate_expr(step));
    let m_hat = worth(f, hat);
    let divisor = worth(f, spread_expr(v, step));
    let change = rate * m_hat / divisor;
    if rate > 0real && divisor > 0real && m_hat > 0real {
        assert(change > 0real) by (nonlinear_arith)
            requires
                rate > 0real,
                divisor > 0real,
                m_hat > 0real,
                change == rate * m_hat / divisor,
        ;
    }
    if rate > 0real && divisor > 0real && m_hat < 0real {
        assert(change < 0real) by (nonlinear_arith)
            requires
                rate > 0real,
                divisor > 0real,
                m_hat < 0real,
                change == rate * m_hat / divisor,
        ;
    }
}

/// A normal draw is the root of minus twice the logarithm of the first uniform draw, kept
/// from zero, times the cosine of the full turn times the second; an initial parameter is
/// a normal draw times the standard deviation.
pub proof fn law_normal_draw(f: Functions, u1: Expr, u2: Expr)
    ensures
        ({
            let a = worth(f, u1);
            let least = worth(f, constant(LEAST_DRAW));
            let kept = if a >= least {
                a
            } else {
                least
            };
            let radius = (f.rest)(
                Op::Root,
                seq![worth(f, constant(MINUS_TWO)) * (f.rest)(Op::Log, seq![kept])],
            );
            let turn = worth(f, constant(TWO)) * worth(f, constant(PI));
            let z = radius * (f.rest)(Op::Cosine, seq![turn * worth(f, u2)]);
            &&& worth(f, normal_expr(u1, u2)) == z
            &&& worth(f, initial_expr(u1, u2)) == z * worth(f, constant(INIT_STD))
        }),
{
    let both = seq![u1, constant(LEAST_DRAW)];
    let top = largest(both);
    let numbers = worths_of(both, arithmetic(f));
    assert(numbers.len() == 2 && numbers[0] == worth(f, u1) && numbers[1] == worth(
        f,
        constant(LEAST_DRAW),
    ));
    assert(numbers.drop_last().len() == 1 && numbers.drop_last()[0] == numbers[0]);
    assert(greatest(numbers.drop_last()) == numbers[0]);
    assert(worth(f, top) == greatest(numbers));
    lemma_worth_single(f, top, 0);
    lemma_worth_pair(f, constant(MINUS_TWO), logarithm(top));
    lemma_worth_single(f, times(constant(MINUS_TWO), logarithm(top)), 0);
    lemma_worth_pair(f, constant(TWO), constant(PI));
    let turn = times(constant(TWO), constant(PI));
    lemma_worth_pair(f, turn, u2);
    lemma_worth_single(f, times(turn, u2), 0);
    lemma_worth_pair(f, radius_expr(u1), direction_expr(u2));
    lemma_worth_pair(f, normal_expr(u1, u2), constant(INIT_STD));
}

} // verus!
