//! The building blocks of the network, as functions from values to values.

use vstd::prelude::*;

use crate::config::EPS_NORM;
use crate::tape::{
    below, constant, detached, divided, exponential, largest, lemma_pick_prefix, minus, number, pick,
    pick_rows, plus, power, quotient, rectified, rows, rows_below, times, Expr, Matrix, Tape,
    MINUS_HALF, ZERO,
};

verus! {

/// The smaller of two lengths.
pub open spec fn shorter(a: nat, b: nat) -> nat {
    if a <= b {
        a
    } else {
        b
    }
}

/// `0 + a[0] * b[0] + ... + a[n - 1] * b[n - 1]`, added from the left.
pub open spec fn dot_expr(a: Seq<Expr>, b: Seq<Expr>, n: nat) -> Expr
    decreases n,
{
    if n == 0 {
        constant(ZERO)
    } else {
        plus(dot_expr(a, b, (n - 1) as nat), times(a[n - 1], b[n - 1]))
    }
}

/// `0 + a[0] + ... + a[n - 1]`, added from the left.
pub open spec fn total_expr(a: Seq<Expr>, n: nat) -> Expr
    decreases n,
{
    if n == 0 {
        constant(ZERO)
    } else {
        plus(total_expr(a, (n - 1) as nat), a[n - 1])
    }
}

/// The matrix `w` applied to `x`; what is longer, row or `x`, is cut.
pub open spec fn linear_exprs(x: Seq<Expr>, w: Seq<Seq<Expr>>) -> Seq<Expr> {
    Seq::new(w.len(), |r: int| dot_expr(w[r], x, shorter(w[r].len(), x.len())))
}

/// The exponentials of the logits after their largest is subtracted.
pub open spec fn shifted_exponentials(logits: Seq<Expr>) -> Seq<Expr> {
    Seq::new(
        logits.len(),
        |i: int| exponential(minus(logits[i], largest(logits))),
    )
}

/// The exponentials of the logits, each divided by the sum of all.
pub open spec fn softmax_exprs(logits: Seq<Expr>) -> Seq<Expr> {
    let exps = shifted_exponentials(logits);
    Seq::new(logits.len(), |i: int| divided(exps[i], total_expr(exps, logits.len())))
}

/// The squares of some values.
pub open spec fn square_exprs(x: Seq<Expr>) -> Seq<Expr> {
    Seq::new(x.len(), |i: int| times(x[i], x[i]))
}

/// The mean of the squares of some values.
pub open spec fn mean_square_expr(x: Seq<Expr>) -> Expr {
    quotient(total_expr(square_exprs(x), x.len()), number(x.len() as usize))
}

/// The factor that brings the mean square of some values to one, as a number that
/// no gradient flows through.
pub open spec fn rms_scale_expr(x: Seq<Expr>) -> Expr {
    detached(power(plus(mean_square_expr(x), constant(EPS_NORM)), MINUS_HALF))
}

/// The values, each times the factor that brings their mean square to one.
pub open spec fn rmsnorm_exprs(x: Seq<Expr>) -> Seq<Expr> {
    Seq::new(x.len(), |i: int| times(x[i], rms_scale_expr(x)))
}

/// Two vectors added entry by entry; the longer is cut.
pub open spec fn sum_exprs(a: Seq<Expr>, b: Seq<Expr>) -> Seq<Expr> {
    Seq::new(shorter(a.len(), b.len()), |i: int| plus(a[i], b[i]))
}

/// The values where they are positive, else zero.
pub open spec fn relu_exprs(x: Seq<Expr>) -> Seq<Expr> {
    Seq::new(x.len(), |i: int| rectified(x[i]))
}

/// The values, each times `by`.
pub open spec fn scaled_exprs(x: Seq<Expr>, by: Expr) -> Seq<Expr> {
    Seq::new(x.len(), |i: int| times(x[i], by))
}

/// The scalar product of two vectors; the longer is cut.
pub fn dot(tape: &mut Tape, a: &Vec<usize>, b: &Vec<usize>) -> (id: usize)
    requires
        old(tape).wf(),
        below(a@, old(tape)@.len()),
        below(b@, old(tape)@.len()),
    ensures
        old(tape).gains(
            *final(tape),
            id,
            dot_expr(
                pick(old(tape)@, a@),
                pick(old(tape)@, b@),
                shorter(a@.len(), b@.len()),
            ),
        ),
{
    let ghost start = *tape;
    let n: usize = if a.len() <= b.len() {
        a.len()
    } else {
        b.len()
    };
    let mut acc = tape.constant(ZERO);
    let mut i: usize = 0;
    while i < n
        invariant
            tape.wf(),
            start.grows_to(*tape),
            below(a@, start@.len()),
            below(b@, start@.len()),
            n == shorter(a@.len(), b@.len()),
            i <= n,
            acc < tape@.len(),
            tape@[acc as int] == dot_expr(pick(start@, a@), pick(start@, b@), i as nat),
        decreases n - i,
    {
        assert(a@[i as int] < start@.len());
        assert(b@[i as int] < start@.len());
        let product = tape.mul(a[i], b[i]);
        acc = tape.add(acc, product);
        i += 1;
    }
    acc
}

/// The sum of some values.
pub fn total(tape: &mut Tape, a: &Vec<usize>) -> (id: usize)
    requires
        old(tape).wf(),
        below(a@, old(tape)@.len()),
    ensures
        old(tape).gains(*final(tape), id, total_expr(pick(old(tape)@, a@), a@.len())),
{
    let ghost start = *tape;
    let mut acc = tape.constant(ZERO);
    let mut i: usize = 0;
    while i < a.len()
        invariant
            tape.wf(),
            start.grows_to(*tape),
            below(a@, start@.len()),
            i <= a@.len(),
            acc < tape@.len(),
            tape@[acc as int] == total_expr(pick(start@, a@), i as nat),
        decreases a@.len() - i,
    {
        assert(a@[i as int] < start@.len());
        acc = tape.add(acc, a[i]);
        i += 1;
    }
    acc
}

/// The linear layer: a matrix applied to a vector.
pub fn linear(tape: &mut Tape, x: &Vec<usize>, w: &Matrix) -> (y: Vec<usize>)
    requires
        old(tape).wf(),
        below(x@, old(tape)@.len()),
        rows_below(rows(w@), old(tape)@.len()),
    ensures
        old(tape).gains_all(
            *final(tape),
            y@,
            linear_exprs(pick(old(tape)@, x@), pick_rows(old(tape)@, rows(w@))),
        ),
{
    let ghost start = *tape;
    let ghost goal = linear_exprs(pick(start@, x@), pick_rows(start@, rows(w@)));
    let mut y: Vec<usize> = Vec::new();
    let mut r: usize = 0;
    assert(start.grows_to(*tape)) by {
        tape_grows_to_itself(start);
    }
    while r < w.len()
        invariant
            tape.wf(),
            start.grows_to(*tape),
            below(x@, start@.len()),
            rows_below(rows(w@), start@.len()),
            goal == linear_exprs(pick(start@, x@), pick_rows(start@, rows(w@))),
            r <= w@.len(),
            y@.len() == r,
            below(y@, tape@.len()),
            forall|j: int| 0 <= j < r ==> tape@[#[trigger] y@[j] as int] == goal[j],
        decreases w@.len() - r,
    {
        let ghost mid = *tape;
        assert(rows(w@)[r as int] == w@[r as int]@);
        proof {
            lemma_pick_prefix(start@, mid@, x@);
            lemma_pick_prefix(start@, mid@, w@[r as int]@);
        }
        let id = dot(tape, &w[r], x);
        y.push(id);
        r += 1;
    }
    assert(pick(tape@, y@) =~= goal);
    y
}

/// A tape has grown to itself.
pub proof fn tape_grows_to_itself(tape: Tape)
    ensures
        tape.grows_to(tape),
        tape@.len() == tape.nodes@.len(),
{
    crate::tape::lemma_exprs_len(tape.nodes@);
}

/// The softmax of some logits.
pub fn softmax(tape: &mut Tape, logits: &Vec<usize>) -> (probs: Vec<usize>)
    requires
        old(tape).wf(),
        below(logits@, old(tape)@.len()),
    ensures
        old(tape).gains_all(*final(tape), probs@, softmax_exprs(pick(old(tape)@, logits@))),
{
    let ghost start = *tape;
    let ghost inputs = pick(start@, logits@);
    let ghost exponentials = shifted_exponentials(inputs);
    let top = tape.max_of(logits);
    let mut exps: Vec<usize> = Vec::new();
    let mut i: usize = 0;
    while i < logits.len()
        invariant
            tape.wf(),
            start.grows_to(*tape),
            below(logits@, start@.len()),
            inputs == pick(start@, logits@),
            exponentials == shifted_exponentials(inputs),
            top < tape@.len(),
            tape@[top as int] == largest(inputs),
            i <= logits@.len(),
            exps@.len() == i,
            below(exps@, tape@.len()),
            forall|j: int| 0 <= j < i ==> tape@[#[trigger] exps@[j] as int] == exponentials[j],
        decreases logits@.len() - i,
    {
        assert(logits@[i as int] < start@.len());
        let shifted = tape.sub(logits[i], top);
        let e = tape.exp(shifted);
        exps.push(e);
        i += 1;
    }
    assert(pick(tape@, exps@) =~= exponentials);
    let ghost middle = *tape;
    let sum = total(tape, &exps);
    let ghost goal = softmax_exprs(inputs);
    let mut probs: Vec<usize> = Vec::new();
    i = 0;
    while i < exps.len()
        invariant
            tape.wf(),
            start.grows_to(*tape),
            middle.grows_to(*tape),
            goal == softmax_exprs(inputs),
            exponentials == shifted_exponentials(inputs),
            below(exps@, middle@.len()),
            exps@.len() == inputs.len(),
            pick(middle@, exps@) == exponentials,
            sum < tape@.len(),
            tape@[sum as int] == total_expr(exponentials, exponentials.len()),
            i <= exps@.len(),
            probs@.len() == i,
            below(probs@, tape@.len()),
            forall|j: int| 0 <= j < i ==> tape@[#[trigger] probs@[j] as int] == goal[j],
        decreases exps@.len() - i,
    {
        assert(exps@[i as int] < middle@.len());
        assert(pick(middle@, exps@)[i as int] == exponentials[i as int]);
        let p = tape.div(exps[i], sum);
        probs.push(p);
        i += 1;
    }
    assert(pick(tape@, probs@) =~= goal);
    probs
}

/// Some values, each times `by`.
pub fn scaled(tape: &mut Tape, x: &Vec<usize>, by: usize) -> (y: Vec<usize>)
    requires
        old(tape).wf(),
        below(x@, old(tape)@.len()),
        by < old(tape)@.len(),
    ensures
        old(tape).gains_all(
            *final(tape),
            y@,
            scaled_exprs(pick(old(tape)@, x@), old(tape)@[by as int]),
        ),
{
    let ghost start = *tape;
    let ghost goal = scaled_exprs(pick(start@, x@), start@[by as int]);
    proof {
        tape_grows_to_itself(start);
    }
    let mut y: Vec<usize> = Vec::new();
    let mut i: usize = 0;
    while i < x.len()
        invariant
            tape.wf(),
            start.grows_to(*tape),
            below(x@, start@.len()),
            by < start@.len(),
            goal == scaled_exprs(pick(start@, x@), start@[by as int]),
            i <= x@.len(),
            y@.len() == i,
            below(y@, tape@.len()),
            forall|j: int| 0 <= j < i ==> tape@[#[trigger] y@[j] as int] == goal[j],
        decreases x@.len() - i,
    {
        assert(x@[i as int] < start@.len());
        let id = tape.mul(x[i], by);
        y.push(id);
        i += 1;
    }
    assert(pick(tape@, y@) =~= goal);
    y
}

/// The factor that brings the mean square of some values to one.
pub fn rms_scale(tape: &mut Tape, x: &Vec<usize>) -> (id: usize)
    requires
        old(tape).wf(),
        below(x@, old(tape)@.len()),
    ensures
        old(tape).gains(*final(tape), id, rms_scale_expr(pick(old(tape)@, x@))),
{
    let ghost start = *tape;
    let ghost xs = pick(start@, x@);
    proof {
        tape_grows_to_itself(start);
    }
    let mut squares: Vec<usize> = Vec::new();
    let mut i: usize = 0;
    while i < x.len()
        invariant
            tape.wf(),
            start.grows_to(*tape),
            below(x@, start@.len()),
            xs == pick(start@, x@),
            i <= x@.len(),
            squares@.len() == i,
            below(squares@, tape@.len()),
            forall|j: int|
                0 <= j < i ==> tape@[#[trigger] squares@[j] as int] == square_exprs(xs)[j],
        decreases x@.len() - i,
    {
        assert(x@[i as int] < start@.len());
        let square = tape.mul(x[i], x[i]);
        squares.push(square);
        i += 1;
    }
    assert(pick(tape@, squares@) =~= square_exprs(xs));
    let sum = total(tape, &squares);
    let n = tape.number(x.len());
    let mean = tape.quotient(sum, n);
    let eps = tape.constant(EPS_NORM);
    let shifted = tape.add(mean, eps);
    let scale = tape.pow(shifted, MINUS_HALF);
    tape.detach(scale)
}

/// The root-mean-square normalisation of a vector.
pub fn rmsnorm(tape: &mut Tape, x: &Vec<usize>) -> (y: Vec<usize>)
    requires
        old(tape).wf(),
        below(x@, old(tape)@.len()),
    ensures
        old(tape).gains_all(*final(tape), y@, rmsnorm_exprs(pick(old(tape)@, x@))),
{
    let ghost start = *tape;
    let scale = rms_scale(tape, x);
    proof {
        lemma_pick_prefix(start@, tape@, x@);
        assert(scaled_exprs(pick(start@, x@), tape@[scale as int]) =~= rmsnorm_exprs(
            pick(start@, x@),
        ));
    }
    scaled(tape, x, scale)
}

/// Two vectors added entry by entry; the longer is cut.
pub fn summed(tape: &mut Tape, a: &Vec<usize>, b: &Vec<usize>) -> (y: Vec<usize>)
    requires
        old(tape).wf(),
        below(a@, old(tape)@.len()),
        below(b@, old(tape)@.len()),
    ensures
        old(tape).gains_all(
            *final(tape),
            y@,
            sum_exprs(pick(old(tape)@, a@), pick(old(tape)@, b@)),
        ),
{
    let ghost start = *tape;
    let ghost goal = sum_exprs(pick(start@, a@), pick(start@, b@));
    proof {
        tape_grows_to_itself(start);
    }
    let n: usize = if a.len() <= b.len() {
        a.len()
    } else {
        b.len()
    };
    let mut y: Vec<usize> = Vec::new();
    let mut i: usize = 0;
    while i < n
        invariant
            tape.wf(),
            start.grows_to(*tape),
            below(a@, start@.len()),
            below(b@, start@.len()),
            goal == sum_exprs(pick(start@, a@), pick(start@, b@)),
            n == shorter(a@.len(), b@.len()),
            i <= n,
            y@.len() == i,
            below(y@, tape@.len()),
            forall|j: int| 0 <= j < i ==> tape@[#[trigger] y@[j] as int] == goal[j],
        decreases n - i,
    {
        assert(a@[i as int] < start@.len());
        assert(b@[i as int] < start@.len());
        let id = tape.add(a[i], b[i]);
        y.push(id);
        i += 1;
    }
    assert(pick(tape@, y@) =~= goal);
    y
}

/// A vector with what is not positive set to zero.
pub fn rectify(tape: &mut Tape, x: &Vec<usize>) -> (y: Vec<usize>)
    requires
        old(tape).wf(),
        below(x@, old(tape)@.len()),
    ensures
        old(tape).gains_all(*final(tape), y@, relu_exprs(pick(old(tape)@, x@))),
{
    let ghost start = *tape;
    let ghost goal = relu_exprs(pick(start@, x@));
    proof {
        tape_grows_to_itself(start);
    }
    let mut y: Vec<usize> = Vec::new();
    let mut i: usize = 0;
    while i < x.len()
        invariant
            tape.wf(),
            start.grows_to(*tape),
            below(x@, start@.len()),
            goal == relu_exprs(pick(start@, x@)),
            i <= x@.len(),
            y@.len() == i,
            below(y@, tape@.len()),
            forall|j: int| 0 <= j < i ==> tape@[#[trigger] y@[j] as int] == goal[j],
        decreases x@.len() - i,
    {
        assert(x@[i as int] < start@.len());
        let id = tape.relu(x[i]);
        y.push(id);
        i += 1;
    }
    assert(pick(tape@, y@) =~= goal);
    y
}

/// Whether a gradient of `whole` flows back to `part`.
pub open spec fn feeds(part: Expr, whole: Expr) -> bool
    decreases whole,
{
    ||| part == whole
    ||| !whole.op.detached() && exists|i: int|
        0 <= i < whole.args.len() && feeds(part, #[trigger] whole.args[i])
}

/// What a summand passes its gradient on to gets that of the total too.
pub proof fn lemma_feeds_total(part: Expr, a: Seq<Expr>, n: nat, k: int)
    requires
        0 <= k < n <= a.len(),
        feeds(part, a[k]),
    ensures
        feeds(part, total_expr(a, n)),
    decreases n,
{
    let whole = total_expr(a, n);
    if k < n - 1 {
        lemma_feeds_total(part, a, (n - 1) as nat, k);
        assert(feeds(part, whole.args[0]));
    } else {
        assert(feeds(part, whole.args[1]));
    }
}

/// Subtracting the largest logit does not cut the logits off: the gradient of every
/// probability flows back to every logit.
pub proof fn law_softmax_feeds_logits(logits: Seq<Expr>, i: int, k: int)
    requires
        0 <= i < logits.len(),
        0 <= k < logits.len(),
    ensures
        feeds(logits[k], softmax_exprs(logits)[i]),
{
    let exps = shifted_exponentials(logits);
    let e = exps[k];
    let shifted = e.args[0];
    let whole = softmax_exprs(logits)[i];
    let inverse = whole.args[1];
    assert(feeds(logits[k], shifted.args[0]));
    assert(feeds(logits[k], e.args[0]));
    lemma_feeds_total(logits[k], exps, logits.len(), k);
    assert(feeds(logits[k], inverse.args[0]));
    assert(feeds(logits[k], whole.args[1]));
}

/// Summands are added one after the other, from the first to the last, to zero.
pub proof fn law_summands_in_order(x: Seq<Expr>, y: Seq<Expr>, n: nat)
    ensures
        dot_expr(x, y, 0) == constant(ZERO),
        dot_expr(x, y, n + 1) == plus(dot_expr(x, y, n), times(x[n as int], y[n as int])),
        total_expr(x, 0) == constant(ZERO),
        total_expr(x, n + 1) == plus(total_expr(x, n), x[n as int]),
{
}

} // verus!
