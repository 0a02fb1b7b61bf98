//! Models that hold the same numbers compute the same.
//!
//! Two models may keep their parameters at different positions. What they compute is
//! compared by what the expressions are worth, in any arithmetic.

use vstd::prelude::*;

use crate::config::{EPS_NORM, HEAD_DIM, N_EMBD, N_HEAD, N_LAYER, TEMPERATURE};
use crate::gpt::{
    after_layer, after_layers, attended, attention_exprs, embedded, gpt_stream, head_column,
    head_exprs, head_logits, head_part, head_scale, perceived, projected, Stream, Weights,
};
use crate::layers::{
    dot_expr, linear_exprs, mean_square_expr, relu_exprs, rms_scale_expr, rmsnorm_exprs,
    scaled_exprs, shifted_exponentials, shorter, softmax_exprs, square_exprs, sum_exprs, total_expr,
};
use crate::params::layer_part;
use crate::sampler::next_probabilities;
use crate::tape::{
    constant, largest, leaf, logarithm, minus, negated, number, plus, power, quotient, root, times,
    worth_of, worths_of, Expr, Op, MINUS_HALF, MINUS_ONE, ONE, ZERO,
};
use crate::train::{context, lemma_logits_len, loss_at, loss_expr, losses, no_rows, passes};

verus! {

/// Whether two arithmetics differ in nothing but the values of the parameters.
pub open spec fn agree<T>(a: spec_fn(Op, Seq<T>) -> T, b: spec_fn(Op, Seq<T>) -> T) -> bool {
    forall|op: Op, args: Seq<T>| !(op is Param) ==> #[trigger] a(op, args) == b(op, args)
}

/// Whether two values are worth the same.
pub open spec fn same<T>(
    x: Expr,
    a: spec_fn(Op, Seq<T>) -> T,
    y: Expr,
    b: spec_fn(Op, Seq<T>) -> T,
) -> bool {
    worth_of(x, a) == worth_of(y, b)
}

/// Whether two vectors are as long, and worth the same entry by entry.
pub open spec fn same_all<T>(
    x: Seq<Expr>,
    a: spec_fn(Op, Seq<T>) -> T,
    y: Seq<Expr>,
    b: spec_fn(Op, Seq<T>) -> T,
) -> bool {
    &&& x.len() == y.len()
    &&& forall|i: int| 0 <= i < x.len() ==> same(#[trigger] x[i], a, #[trigger] y[i], b)
}

/// Whether two matrices have as many rows, and are worth the same row by row.
pub open spec fn same_rows<T>(
    x: Seq<Seq<Expr>>,
    a: spec_fn(Op, Seq<T>) -> T,
    y: Seq<Seq<Expr>>,
    b: spec_fn(Op, Seq<T>) -> T,
) -> bool {
    &&& x.len() == y.len()
    &&& forall|r: int| 0 <= r < x.len() ==> same_all(#[trigger] x[r], a, #[trigger] y[r], b)
}

/// What is worth the same entry by entry is worth the same as a whole.
pub proof fn lemma_same_all<T>(
    x: Seq<Expr>,
    a: spec_fn(Op, Seq<T>) -> T,
    y: Seq<Expr>,
    b: spec_fn(Op, Seq<T>) -> T,
)
    ensures
        same_all(x, a, y, b) <==> worths_of(x, a) == worths_of(y, b),
{
    let u = worths_of(x, a);
    let v = worths_of(y, b);
    if same_all(x, a, y, b) {
        assert forall|i: int| 0 <= i < u.len() implies u[i] == v[i] by {
            assert(same(x[i], a, y[i], b));
        }
        assert(u =~= v);
    }
    if u == v {
        assert(u.len() == x.len() && v.len() == y.len());
        assert forall|i: int| 0 <= i < x.len() implies same(#[trigger] x[i], a, #[trigger] y[i], b) by {
            assert(u[i] == v[i]);
        }
    }
}

/// The same operation on what is worth the same is worth the same.
pub proof fn lemma_same_op<T>(
    op: Op,
    x: Seq<Expr>,
    a: spec_fn(Op, Seq<T>) -> T,
    y: Seq<Expr>,
    b: spec_fn(Op, Seq<T>) -> T,
)
    requires
        agree(a, b),
        !(op is Param),
        same_all(x, a, y, b),
    ensures
        same(Expr { op, args: x }, a, Expr { op, args: y }, b),
{
    lemma_same_all(x, a, y, b);
    assert(a(op, worths_of(x, a)) == b(op, worths_of(x, a)));
}

/// What operations on one or two values are worth.
pub proof fn lemma_worth_of_args<T>(op: Op, x: Expr, y: Expr, a: spec_fn(Op, Seq<T>) -> T)
    ensures
        worth_of(Expr { op, args: seq![x] }, a) == a(op, seq![worth_of(x, a)]),
        worth_of(Expr { op, args: seq![x, y] }, a) == a(op, seq![worth_of(x, a), worth_of(y, a)]),
        worth_of(leaf(op), a) == a(op, Seq::empty()),
{
    assert(worths_of(seq![x], a) =~= seq![worth_of(x, a)]);
    assert(worths_of(seq![x, y], a) =~= seq![worth_of(x, a), worth_of(y, a)]);
    assert(worths_of(Seq::<Expr>::empty(), a) =~= Seq::<T>::empty());
}

proof fn lemma_same_leaf<T>(op: Op, a: spec_fn(Op, Seq<T>) -> T, b: spec_fn(Op, Seq<T>) -> T)
    requires
        agree(a, b),
        !(op is Param),
    ensures
        same(leaf(op), a, leaf(op), b),
{
    lemma_same_op(op, Seq::empty(), a, Seq::empty(), b);
}

/// Operations on one value.
pub proof fn lemma_same_single<T>(
    op: Op,
    x: Expr,
    a: spec_fn(Op, Seq<T>) -> T,
    y: Expr,
    b: spec_fn(Op, Seq<T>) -> T,
)
    requires
        agree(a, b),
        !(op is Param),
        same(x, a, y, b),
    ensures
        same(Expr { op, args: seq![x] }, a, Expr { op, args: seq![y] }, b),
{
    lemma_same_op(op, seq![x], a, seq![y], b);
}

/// Operations on two values.
pub proof fn lemma_same_pair<T>(
    op: Op,
    x: Expr,
    u: Expr,
    a: spec_fn(Op, Seq<T>) -> T,
    y: Expr,
    v: Expr,
    b: spec_fn(Op, Seq<T>) -> T,
)
    requires
        agree(a, b),
        !(op is Param),
        same(x, a, y, b),
        same(u, a, v, b),
    ensures
        same(Expr { op, args: seq![x, u] }, a, Expr { op, args: seq![y, v] }, b),
{
    let (p, q) = (seq![x, u], seq![y, v]);
    assert forall|i: int| 0 <= i < p.len() implies same(#[trigger] p[i], a, #[trigger] q[i], b) by {
        assert(i == 0 || i == 1);
    }
    lemma_same_op(op, p, a, q, b);
}

proof fn lemma_same_total<T>(
    x: Seq<Expr>,
    a: spec_fn(Op, Seq<T>) -> T,
    y: Seq<Expr>,
    b: spec_fn(Op, Seq<T>) -> T,
    n: nat,
)
    requires
        agree(a, b),
        same_all(x, a, y, b),
        n <= x.len(),
    ensures
        same(total_expr(x, n), a, total_expr(y, n), b),
    decreases n,
{
    if n == 0 {
        lemma_same_leaf(Op::Const(ZERO), a, b);
    } else {
        let m = (n - 1) as nat;
        lemma_same_total(x, a, y, b, m);
        assert(same(x[n - 1], a, y[n - 1], b));
        lemma_same_pair(Op::Add, total_expr(x, m), x[n - 1], a, total_expr(y, m), y[n - 1], b);
    }
}

pub proof fn lemma_same_dot<T>(
    x: Seq<Expr>,
    u: Seq<Expr>,
    a: spec_fn(Op, Seq<T>) -> T,
    y: Seq<Expr>,
    v: Seq<Expr>,
    b: spec_fn(Op, Seq<T>) -> T,
    n: nat,
)
    requires
        agree(a, b),
        same_all(x, a, y, b),
        same_all(u, a, v, b),
        n <= x.len(),
        n <= u.len(),
    ensures
        same(dot_expr(x, u, n), a, dot_expr(y, v, n), b),
    decreases n,
{
    if n == 0 {
        lemma_same_leaf(Op::Const(ZERO), a, b);
    } else {
        let m = (n - 1) as nat;
        lemma_same_dot(x, u, a, y, v, b, m);
        assert(same(x[n - 1], a, y[n - 1], b));
        assert(same(u[n - 1], a, v[n - 1], b));
        lemma_same_pair(Op::Mul, x[n - 1], u[n - 1], a, y[n - 1], v[n - 1], b);
        lemma_same_pair(
            Op::Add,
            dot_expr(x, u, m),
            times(x[n - 1], u[n - 1]),
            a,
            dot_expr(y, v, m),
            times(y[n - 1], v[n - 1]),
            b,
        );
    }
}

pub proof fn lemma_same_linear<T>(
    x: Seq<Expr>,
    w: Seq<Seq<Expr>>,
    a: spec_fn(Op, Seq<T>) -> T,
    y: Seq<Expr>,
    v: Seq<Seq<Expr>>,
    b: spec_fn(Op, Seq<T>) -> T,
)
    requires
        agree(a, b),
        same_all(x, a, y, b),
        same_rows(w, a, v, b),
    ensures
        same_all(linear_exprs(x, w), a, linear_exprs(y, v), b),
{
    let p = linear_exprs(x, w);
    let q = linear_exprs(y, v);
    assert forall|r: int| 0 <= r < p.len() implies same(#[trigger] p[r], a, #[trigger] q[r], b) by {
        assert(same_all(w[r], a, v[r], b));
        lemma_same_dot(w[r], x, a, v[r], y, b, shorter(w[r].len(), x.len()));
    }
}

pub proof fn lemma_same_sum<T>(
    x: Seq<Expr>,
    u: Seq<Expr>,
    a: spec_fn(Op, Seq<T>) -> T,
    y: Seq<Expr>,
    v: Seq<Expr>,
    b: spec_fn(Op, Seq<T>) -> T,
)
    requires
        agree(a, b),
        same_all(x, a, y, b),
        same_all(u, a, v, b),
    ensures
        same_all(sum_exprs(x, u), a, sum_exprs(y, v), b),
{
    let p = sum_exprs(x, u);
    let q = sum_exprs(y, v);
    assert forall|i: int| 0 <= i < p.len() implies same(#[trigger] p[i], a, #[trigger] q[i], b) by {
        assert(same(x[i], a, y[i], b));
        assert(same(u[i], a, v[i], b));
        lemma_same_pair(Op::Add, x[i], u[i], a, y[i], v[i], b);
    }
}

proof fn lemma_same_relu<T>(
    x: Seq<Expr>,
    a: spec_fn(Op, Seq<T>) -> T,
    y: Seq<Expr>,
    b: spec_fn(Op, Seq<T>) -> T,
)
    requires
        agree(a, b),
        same_all(x, a, y, b),
    ensures
        same_all(relu_exprs(x), a, relu_exprs(y), b),
{
    let p = relu_exprs(x);
    let q = relu_exprs(y);
    assert forall|i: int| 0 <= i < p.len() implies same(#[trigger] p[i], a, #[trigger] q[i], b) by {
        assert(same(x[i], a, y[i], b));
        lemma_same_single(Op::Relu, x[i], a, y[i], b);
    }
}

proof fn lemma_same_scaled<T>(
    x: Seq<Expr>,
    s: Expr,
    a: spec_fn(Op, Seq<T>) -> T,
    y: Seq<Expr>,
    t: Expr,
    b: spec_fn(Op, Seq<T>) -> T,
)
    requires
        agree(a, b),
        same_all(x, a, y, b),
        same(s, a, t, b),
    ensures
        same_all(scaled_exprs(x, s), a, scaled_exprs(y, t), b),
{
    let p = scaled_exprs(x, s);
    let q = scaled_exprs(y, t);
    assert forall|i: int| 0 <= i < p.len() implies same(#[trigger] p[i], a, #[trigger] q[i], b) by {
        assert(same(x[i], a, y[i], b));
        lemma_same_pair(Op::Mul, x[i], s, a, y[i], t, b);
    }
}

pub proof fn lemma_same_rmsnorm<T>(
    x: Seq<Expr>,
    a: spec_fn(Op, Seq<T>) -> T,
    y: Seq<Expr>,
    b: spec_fn(Op, Seq<T>) -> T,
)
    requires
        agree(a, b),
        same_all(x, a, y, b),
    ensures
        same_all(rmsnorm_exprs(x), a, rmsnorm_exprs(y), b),
{
    let p = square_exprs(x);
    let q = square_exprs(y);
    let n = x.len();
    assert forall|i: int| 0 <= i < p.len() implies same(#[trigger] p[i], a, #[trigger] q[i], b) by {
        assert(same(x[i], a, y[i], b));
        lemma_same_pair(Op::Mul, x[i], x[i], a, y[i], y[i], b);
    }
    lemma_same_total(p, a, q, b, n);
    lemma_same_leaf(Op::Number(n as usize), a, b);
    lemma_same_pair(
        Op::Quotient,
        total_expr(p, n),
        number(n as usize),
        a,
        total_expr(q, n),
        number(n as usize),
        b,
    );
    lemma_same_leaf(Op::Const(EPS_NORM), a, b);
    let eps = constant(EPS_NORM);
    lemma_same_pair(Op::Add, mean_square_expr(x), eps, a, mean_square_expr(y), eps, b);
    let u = plus(mean_square_expr(x), eps);
    let v = plus(mean_square_expr(y), eps);
    lemma_same_single(Op::Pow(MINUS_HALF), u, a, v, b);
    lemma_same_single(Op::Detach, power(u, MINUS_HALF), a, power(v, MINUS_HALF), b);
    lemma_same_scaled(x, rms_scale_expr(x), a, y, rms_scale_expr(y), b);
    assert(rmsnorm_exprs(x) =~= scaled_exprs(x, rms_scale_expr(x)));
    assert(rmsnorm_exprs(y) =~= scaled_exprs(y, rms_scale_expr(y)));
}

pub proof fn lemma_same_softmax<T>(
    x: Seq<Expr>,
    a: spec_fn(Op, Seq<T>) -> T,
    y: Seq<Expr>,
    b: spec_fn(Op, Seq<T>) -> T,
)
    requires
        agree(a, b),
        same_all(x, a, y, b),
    ensures
        same_all(softmax_exprs(x), a, softmax_exprs(y), b),
{
    let n = x.len();
    let p = shifted_exponentials(x);
    let q = shifted_exponentials(y);
    let top = largest(x);
    let other = largest(y);
    lemma_same_op(Op::Max, x, a, y, b);
    lemma_same_single(Op::Neg, top, a, other, b);
    assert forall|i: int| 0 <= i < p.len() implies same(#[trigger] p[i], a, #[trigger] q[i], b) by {
        assert(same(x[i], a, y[i], b));
        lemma_same_pair(Op::Add, x[i], negated(top), a, y[i], negated(other), b);
        lemma_same_single(Op::Exp, minus(x[i], top), a, minus(y[i], other), b);
    }
    lemma_same_total(p, a, q, b, n);
    let s = total_expr(p, n);
    let t = total_expr(q, n);
    lemma_same_single(Op::Pow(MINUS_ONE), s, a, t, b);
    let u = softmax_exprs(x);
    let v = softmax_exprs(y);
    assert forall|i: int| 0 <= i < u.len() implies same(#[trigger] u[i], a, #[trigger] v[i], b) by {
        assert(same(p[i], a, q[i], b));
        lemma_same_pair(Op::Mul, p[i], power(s, MINUS_ONE), a, q[i], power(t, MINUS_ONE), b);
    }
}

proof fn lemma_same_part<T>(
    x: Seq<Expr>,
    a: spec_fn(Op, Seq<T>) -> T,
    y: Seq<Expr>,
    b: spec_fn(Op, Seq<T>) -> T,
    hs: int,
)
    requires
        same_all(x, a, y, b),
        0 <= hs,
        hs + HEAD_DIM <= x.len(),
    ensures
        same_all(head_part(x, hs), a, head_part(y, hs), b),
{
    let p = head_part(x, hs);
    let q = head_part(y, hs);
    assert forall|i: int| 0 <= i < p.len() implies same(#[trigger] p[i], a, #[trigger] q[i], b) by {
        assert(same(x[hs + i], a, y[hs + i], b));
    }
}

/// Whether every row of a matrix is wide enough for all heads.
pub open spec fn wide_rows(m: Seq<Seq<Expr>>) -> bool {
    forall|r: int| 0 <= r < m.len() ==> (#[trigger] m[r]).len() >= N_EMBD
}

proof fn lemma_same_head<T>(
    q1: Seq<Expr>,
    k1: Seq<Seq<Expr>>,
    v1: Seq<Seq<Expr>>,
    a: spec_fn(Op, Seq<T>) -> T,
    q2: Seq<Expr>,
    k2: Seq<Seq<Expr>>,
    v2: Seq<Seq<Expr>>,
    b: spec_fn(Op, Seq<T>) -> T,
    hs: int,
)
    requires
        agree(a, b),
        same_all(q1, a, q2, b),
        same_rows(k1, a, k2, b),
        same_rows(v1, a, v2, b),
        0 <= hs,
        hs + HEAD_DIM <= N_EMBD,
        q1.len() >= N_EMBD,
        wide_rows(k1),
        wide_rows(v1),
        k1.len() <= v1.len(),
    ensures
        same_all(head_exprs(q1, k1, v1, hs), a, head_exprs(q2, k2, v2, hs), b),
{
    let n = k1.len();
    let l1 = head_logits(q1, k1, hs);
    let l2 = head_logits(q2, k2, hs);
    lemma_same_part(q1, a, q2, b, hs);
    lemma_same_leaf(Op::Const(ONE), a, b);
    lemma_same_leaf(Op::Number(HEAD_DIM), a, b);
    lemma_same_single(Op::Root, number(HEAD_DIM), a, number(HEAD_DIM), b);
    lemma_same_pair(
        Op::Quotient,
        constant(ONE),
        root(number(HEAD_DIM)),
        a,
        constant(ONE),
        root(number(HEAD_DIM)),
        b,
    );
    assert forall|t: int| 0 <= t < l1.len() implies same(#[trigger] l1[t], a, #[trigger] l2[t], b) by {
        assert(same_all(k1[t], a, k2[t], b));
        assert(k1[t].len() >= N_EMBD);
        lemma_same_part(k1[t], a, k2[t], b, hs);
        let (p1, p2) = (head_part(q1, hs), head_part(q2, hs));
        let (r1, r2) = (head_part(k1[t], hs), head_part(k2[t], hs));
        let m = HEAD_DIM as nat;
        lemma_same_dot(p1, r1, a, p2, r2, b, m);
        lemma_same_pair(
            Op::Mul,
            dot_expr(p1, r1, m),
            head_scale(),
            a,
            dot_expr(p2, r2, m),
            head_scale(),
            b,
        );
    }
    lemma_same_softmax(l1, a, l2, b);
    let o1 = head_exprs(q1, k1, v1, hs);
    let o2 = head_exprs(q2, k2, v2, hs);
    assert forall|j: int| 0 <= j < o1.len() implies same(#[trigger] o1[j], a, #[trigger] o2[j], b) by {
        let c1 = head_column(v1, n, hs, j);
        let c2 = head_column(v2, n, hs, j);
        assert forall|t: int| 0 <= t < n implies same(#[trigger] c1[t], a, #[trigger] c2[t], b) by {
            assert(same_all(v1[t], a, v2[t], b));
            assert(v1[t].len() >= N_EMBD);
            assert(same(v1[t][hs + j], a, v2[t][hs + j], b));
        }
        lemma_same_dot(softmax_exprs(l1), c1, a, softmax_exprs(l2), c2, b, n);
    }
}

proof fn lemma_same_attention<T>(
    q1: Seq<Expr>,
    k1: Seq<Seq<Expr>>,
    v1: Seq<Seq<Expr>>,
    a: spec_fn(Op, Seq<T>) -> T,
    q2: Seq<Expr>,
    k2: Seq<Seq<Expr>>,
    v2: Seq<Seq<Expr>>,
    b: spec_fn(Op, Seq<T>) -> T,
    n: nat,
)
    requires
        agree(a, b),
        same_all(q1, a, q2, b),
        same_rows(k1, a, k2, b),
        same_rows(v1, a, v2, b),
        q1.len() >= N_EMBD,
        wide_rows(k1),
        wide_rows(v1),
        k1.len() <= v1.len(),
        n <= N_HEAD,
    ensures
        same_all(attention_exprs(q1, k1, v1, n), a, attention_exprs(q2, k2, v2, n), b),
    decreases n,
{
    if n > 0 {
        let m = (n - 1) as nat;
        let hs = (n - 1) * HEAD_DIM;
        assert(0 <= hs && hs + HEAD_DIM <= N_EMBD);
        lemma_same_attention(q1, k1, v1, a, q2, k2, v2, b, m);
        lemma_same_head(q1, k1, v1, a, q2, k2, v2, b, hs);
        let (x, y) = (attention_exprs(q1, k1, v1, m), attention_exprs(q2, k2, v2, m));
        let (u, v) = (head_exprs(q1, k1, v1, hs), head_exprs(q2, k2, v2, hs));
        assert forall|i: int| 0 <= i < (x + u).len() implies same(
            #[trigger] (x + u)[i],
            a,
            #[trigger] (y + v)[i],
            b,
        ) by {
            if i < x.len() {
                assert(same(x[i], a, y[i], b));
            } else {
                assert(same(u[i - x.len()], a, v[i - x.len()], b));
            }
        }
    }
}

/// Whether two models have the same matrices, worth the same entry by entry.
pub open spec fn same_weights<T>(
    w: Weights,
    a: spec_fn(Op, Seq<T>) -> T,
    v: Weights,
    b: spec_fn(Op, Seq<T>) -> T,
) -> bool {
    forall|name: Seq<char>| #[trigger] w.contains_key(name) ==> same_rows(w[name], a, v[name], b)
}

/// Whether a model has all its matrices, with rows enough for all heads.
pub open spec fn weights_ready(w: Weights) -> bool {
    &&& w.contains_key("wte"@)
    &&& w.contains_key("wpe"@)
    &&& w.contains_key("lm_head"@)
    &&& forall|l: nat| l < N_LAYER ==> #[trigger] weights_ready_at(w, l)
}

/// Whether a layer has all its matrices, with rows enough for all heads.
pub open spec fn weights_ready_at(w: Weights, l: nat) -> bool {
    &&& w.contains_key(layer_part(l, "attn_wq"@))
    &&& w.contains_key(layer_part(l, "attn_wk"@))
    &&& w.contains_key(layer_part(l, "attn_wv"@))
    &&& w.contains_key(layer_part(l, "attn_wo"@))
    &&& w.contains_key(layer_part(l, "mlp_fc1"@))
    &&& w.contains_key(layer_part(l, "mlp_fc2"@))
    &&& w[layer_part(l, "attn_wq"@)].len() >= N_EMBD
    &&& w[layer_part(l, "attn_wk"@)].len() >= N_EMBD
    &&& w[layer_part(l, "attn_wv"@)].len() >= N_EMBD
}

/// A matrix of a layer applied to what is worth the same.
pub proof fn lemma_same_projected<T>(
    x: Seq<Expr>,
    w: Weights,
    a: spec_fn(Op, Seq<T>) -> T,
    y: Seq<Expr>,
    v: Weights,
    b: spec_fn(Op, Seq<T>) -> T,
    l: nat,
    part: Seq<char>,
)
    requires
        agree(a, b),
        same_all(x, a, y, b),
        same_rows(w[layer_part(l, part)], a, v[layer_part(l, part)], b),
    ensures
        same_all(projected(x, w, l, part), a, projected(y, v, l, part), b),
{
    lemma_same_rmsnorm(x, a, y, b);
    let name = layer_part(l, part);
    lemma_same_linear(rmsnorm_exprs(x), w[name], a, rmsnorm_exprs(y), v[name], b);
}

/// The second half of a layer.
pub proof fn lemma_same_perceived<T>(
    x: Seq<Expr>,
    w: Weights,
    a: spec_fn(Op, Seq<T>) -> T,
    y: Seq<Expr>,
    v: Weights,
    b: spec_fn(Op, Seq<T>) -> T,
    l: nat,
)
    requires
        agree(a, b),
        same_all(x, a, y, b),
        same_rows(w[layer_part(l, "mlp_fc1"@)], a, v[layer_part(l, "mlp_fc1"@)], b),
        same_rows(w[layer_part(l, "mlp_fc2"@)], a, v[layer_part(l, "mlp_fc2"@)], b),
    ensures
        same_all(perceived(x, w, l), a, perceived(y, v, l), b),
{
    let name = layer_part(l, "mlp_fc2"@);
    lemma_same_projected(x, w, a, y, v, b, l, "mlp_fc1"@);
    let (p, q) = (projected(x, w, l, "mlp_fc1"@), projected(y, v, l, "mlp_fc1"@));
    lemma_same_relu(p, a, q, b);
    lemma_same_linear(relu_exprs(p), w[name], a, relu_exprs(q), v[name], b);
    lemma_same_sum(
        linear_exprs(relu_exprs(p), w[name]),
        x,
        a,
        linear_exprs(relu_exprs(q), v[name]),
        y,
        b,
    );
}

/// What follows the attention in the first half of a layer.
pub proof fn lemma_same_merged<T>(
    h: Seq<Expr>,
    x: Seq<Expr>,
    w: Seq<Seq<Expr>>,
    a: spec_fn(Op, Seq<T>) -> T,
    i: Seq<Expr>,
    y: Seq<Expr>,
    v: Seq<Seq<Expr>>,
    b: spec_fn(Op, Seq<T>) -> T,
)
    requires
        agree(a, b),
        same_all(h, a, i, b),
        same_all(x, a, y, b),
        same_rows(w, a, v, b),
    ensures
        same_all(sum_exprs(linear_exprs(h, w), x), a, sum_exprs(linear_exprs(i, v), y), b),
{
    lemma_same_linear(h, w, a, i, v, b);
    lemma_same_sum(linear_exprs(h, w), x, a, linear_exprs(i, v), y, b);
}

/// Whether two streams are worth the same, with keys and values that can be attended to.
pub open spec fn same_stream<T>(
    s: Stream,
    a: spec_fn(Op, Seq<T>) -> T,
    t: Stream,
    b: spec_fn(Op, Seq<T>) -> T,
) -> bool {
    &&& same_all(s.x, a, t.x, b)
    &&& same_cache(s.keys, s.values, a, t.keys, t.values, b)
}

/// Whether keys and values are worth the same, and can be attended to.
pub open spec fn same_cache<T>(
    k: Seq<Seq<Seq<Expr>>>,
    v: Seq<Seq<Seq<Expr>>>,
    a: spec_fn(Op, Seq<T>) -> T,
    m: Seq<Seq<Seq<Expr>>>,
    u: Seq<Seq<Seq<Expr>>>,
    b: spec_fn(Op, Seq<T>) -> T,
) -> bool {
    &&& k.len() == N_LAYER
    &&& v.len() == N_LAYER
    &&& m.len() == N_LAYER
    &&& u.len() == N_LAYER
    &&& forall|l: int| 0 <= l < N_LAYER ==> same_cached(#[trigger] k[l], v[l], a, m[l], u[l], b)
}

/// Whether the keys and values of a layer are worth the same, and can be attended to.
pub open spec fn same_cached<T>(
    k: Seq<Seq<Expr>>,
    v: Seq<Seq<Expr>>,
    a: spec_fn(Op, Seq<T>) -> T,
    m: Seq<Seq<Expr>>,
    u: Seq<Seq<Expr>>,
    b: spec_fn(Op, Seq<T>) -> T,
) -> bool {
    &&& same_rows(k, a, m, b)
    &&& same_rows(v, a, u, b)
    &&& wide_rows(k)
    &&& wide_rows(v)
    &&& k.len() <= v.len()
}

proof fn lemma_same_push<T>(
    m: Seq<Seq<Expr>>,
    x: Seq<Expr>,
    a: spec_fn(Op, Seq<T>) -> T,
    n: Seq<Seq<Expr>>,
    y: Seq<Expr>,
    b: spec_fn(Op, Seq<T>) -> T,
)
    requires
        same_rows(m, a, n, b),
        same_all(x, a, y, b),
        wide_rows(m),
        x.len() >= N_EMBD,
    ensures
        same_rows(m.push(x), a, n.push(y), b),
        wide_rows(m.push(x)),
{
    let (p, q) = (m.push(x), n.push(y));
    assert forall|r: int| 0 <= r < p.len() implies same_all(
        #[trigger] p[r],
        a,
        #[trigger] q[r],
        b,
    ) by {
        if r < m.len() {
            assert(same_all(m[r], a, n[r], b));
        }
    }
    assert forall|r: int| 0 <= r < p.len() implies (#[trigger] p[r]).len() >= N_EMBD by {
        if r < m.len() {
            assert(m[r].len() >= N_EMBD);
        }
    }
}

proof fn lemma_same_layer<T>(
    s: Stream,
    w: Weights,
    a: spec_fn(Op, Seq<T>) -> T,
    t: Stream,
    v: Weights,
    b: spec_fn(Op, Seq<T>) -> T,
    l: nat,
)
    requires
        agree(a, b),
        same_stream(s, a, t, b),
        weights_ready(w),
        same_weights(w, a, v, b),
        l < N_LAYER,
    ensures
        same_stream(after_layer(s, w, l), a, after_layer(t, v, l), b),
{
    let i = l as int;
    assert(weights_ready_at(w, l));
    assert(same_cached(s.keys[i], s.values[i], a, t.keys[i], t.values[i], b));
    lemma_same_projected(s.x, w, a, t.x, v, b, l, "attn_wq"@);
    lemma_same_projected(s.x, w, a, t.x, v, b, l, "attn_wk"@);
    lemma_same_projected(s.x, w, a, t.x, v, b, l, "attn_wv"@);
    let (q1, q2) = (projected(s.x, w, l, "attn_wq"@), projected(t.x, v, l, "attn_wq"@));
    let (k1, k2) = (projected(s.x, w, l, "attn_wk"@), projected(t.x, v, l, "attn_wk"@));
    let (v1, v2) = (projected(s.x, w, l, "attn_wv"@), projected(t.x, v, l, "attn_wv"@));
    lemma_same_push(s.keys[i], k1, a, t.keys[i], k2, b);
    lemma_same_push(s.values[i], v1, a, t.values[i], v2, b);
    let (ks, kt) = (s.keys[i].push(k1), t.keys[i].push(k2));
    let (vs, vt) = (s.values[i].push(v1), t.values[i].push(v2));
    let n = N_HEAD as nat;
    lemma_same_attention(q1, ks, vs, a, q2, kt, vt, b, n);
    let name = layer_part(l, "attn_wo"@);
    lemma_same_merged(
        attention_exprs(q1, ks, vs, n),
        s.x,
        w[name],
        a,
        attention_exprs(q2, kt, vt, n),
        t.x,
        v[name],
        b,
    );
    lemma_same_perceived(attended(s.x, ks, vs, w, l), w, a, attended(t.x, kt, vt, v, l), v, b, l);
    let (after, other) = (after_layer(s, w, l), after_layer(t, v, l));
    assert forall|j: int| 0 <= j < N_LAYER implies same_cached(
        #[trigger] after.keys[j],
        after.values[j],
        a,
        other.keys[j],
        other.values[j],
        b,
    ) by {
        if j != i {
            assert(same_cached(s.keys[j], s.values[j], a, t.keys[j], t.values[j], b));
        }
    }
}

proof fn lemma_same_layers<T>(
    s: Stream,
    w: Weights,
    a: spec_fn(Op, Seq<T>) -> T,
    t: Stream,
    v: Weights,
    b: spec_fn(Op, Seq<T>) -> T,
    n: nat,
)
    requires
        agree(a, b),
        same_stream(s, a, t, b),
        weights_ready(w),
        same_weights(w, a, v, b),
        n <= N_LAYER,
    ensures
        same_stream(after_layers(s, w, n), a, after_layers(t, v, n), b),
    decreases n,
{
    if n > 0 {
        let m = (n - 1) as nat;
        lemma_same_layers(s, w, a, t, v, b, m);
        lemma_same_layer(after_layers(s, w, m), w, a, after_layers(t, v, m), v, b, m);
    }
}

/// What enters the first layer.
pub proof fn lemma_same_embedded<T>(
    token_id: int,
    pos_id: int,
    w: Weights,
    a: spec_fn(Op, Seq<T>) -> T,
    v: Weights,
    b: spec_fn(Op, Seq<T>) -> T,
)
    requires
        agree(a, b),
        same_rows(w["wte"@], a, v["wte"@], b),
        same_rows(w["wpe"@], a, v["wpe"@], b),
        0 <= token_id < w["wte"@].len(),
        0 <= pos_id < w["wpe"@].len(),
    ensures
        same_all(embedded(token_id, pos_id, w), a, embedded(token_id, pos_id, v), b),
{
    let (x, y) = (w["wte"@][token_id], v["wte"@][token_id]);
    let (u, z) = (w["wpe"@][pos_id], v["wpe"@][pos_id]);
    assert(same_all(x, a, y, b));
    assert(same_all(u, a, z, b));
    lemma_same_sum(x, u, a, y, z, b);
    lemma_same_rmsnorm(sum_exprs(x, u), a, sum_exprs(y, z), b);
}

/// Whether a model has rows for the first `n` tokens and their positions.
pub open spec fn rows_for(w: Weights, tokens: Seq<usize>, n: nat) -> bool {
    &&& n <= tokens.len()
    &&& n <= w["wpe"@].len()
    &&& forall|i: int| 0 <= i < n ==> (#[trigger] tokens[i]) < w["wte"@].len()
}

/// Models that hold the same numbers make the same of all tokens: their logits, at every
/// position, are worth the same.
pub proof fn law_same_numbers_same_logits<T>(
    tokens: Seq<usize>,
    w: Weights,
    a: spec_fn(Op, Seq<T>) -> T,
    v: Weights,
    b: spec_fn(Op, Seq<T>) -> T,
    n: nat,
)
    requires
        agree(a, b),
        weights_ready(w),
        same_weights(w, a, v, b),
        rows_for(w, tokens, n),
    ensures
        same_rows(passes(tokens, w, n).logits, a, passes(tokens, v, n).logits, b),
        same_cache(
            passes(tokens, w, n).keys,
            passes(tokens, w, n).values,
            a,
            passes(tokens, v, n).keys,
            passes(tokens, v, n).values,
            b,
        ),
    decreases n,
{
    if n > 0 {
        let m = (n - 1) as nat;
        law_same_numbers_same_logits(tokens, w, a, v, b, m);
        lemma_logits_len(tokens, w, m);
        lemma_logits_len(tokens, v, m);
        let (p, q) = (passes(tokens, w, m), passes(tokens, v, m));
        let token = tokens[n - 1] as int;
        lemma_same_embedded(token, n - 1, w, a, v, b);
        let s = Stream { x: embedded(token, n - 1, w), keys: p.keys, values: p.values };
        let t = Stream { x: embedded(token, n - 1, v), keys: q.keys, values: q.values };
        lemma_same_layers(s, w, a, t, v, b, N_LAYER as nat);
        let (s1, t1) = (
            gpt_stream(token, n - 1, p.keys, p.values, w),
            gpt_stream(token, n - 1, q.keys, q.values, v),
        );
        lemma_same_linear(s1.x, w["lm_head"@], a, t1.x, v["lm_head"@], b);
        let (x, y) = (passes(tokens, w, n).logits, passes(tokens, v, n).logits);
        assert forall|r: int| 0 <= r < x.len() implies same_all(
            #[trigger] x[r],
            a,
            #[trigger] y[r],
            b,
        ) by {
            if r < m {
                assert(same_all(p.logits[r], a, q.logits[r], b));
            }
        }
    } else {
        assert forall|l: int| 0 <= l < N_LAYER implies same_cached(
            #[trigger] no_rows()[l],
            no_rows()[l],
            a,
            no_rows()[l],
            no_rows()[l],
            b,
        ) by {}
    }
}

/// Models that hold the same numbers give the next token the same probabilities.
pub proof fn law_same_numbers_same_probabilities<T>(
    tokens: Seq<usize>,
    w: Weights,
    a: spec_fn(Op, Seq<T>) -> T,
    v: Weights,
    b: spec_fn(Op, Seq<T>) -> T,
)
    requires
        agree(a, b),
        weights_ready(w),
        same_weights(w, a, v, b),
        tokens.len() > 0,
        rows_for(w, tokens, tokens.len()),
    ensures
        worths_of(next_probabilities(tokens, w), a) == worths_of(next_probabilities(tokens, v), b),
{
    let n = tokens.len();
    law_same_numbers_same_logits(tokens, w, a, v, b, n);
    lemma_logits_len(tokens, w, n);
    let x = passes(tokens, w, n).logits[n - 1];
    let y = passes(tokens, v, n).logits[n - 1];
    assert(same_all(x, a, y, b));
    lemma_same_leaf(Op::Const(ONE), a, b);
    lemma_same_leaf(Op::Const(TEMPERATURE), a, b);
    let (one, temperature) = (constant(ONE), constant(TEMPERATURE));
    lemma_same_pair(Op::Quotient, one, temperature, a, one, temperature, b);
    let factor = quotient(one, temperature);
    lemma_same_scaled(x, factor, a, y, factor, b);
    lemma_same_softmax(scaled_exprs(x, factor), a, scaled_exprs(y, factor), b);
    lemma_same_all(next_probabilities(tokens, w), a, next_probabilities(tokens, v), b);
}

/// Models that hold the same numbers have the same loss.
pub proof fn law_same_numbers_same_loss<T>(
    tokens: Seq<usize>,
    w: Weights,
    a: spec_fn(Op, Seq<T>) -> T,
    v: Weights,
    b: spec_fn(Op, Seq<T>) -> T,
)
    requires
        agree(a, b),
        weights_ready(w),
        same_weights(w, a, v, b),
        tokens.len() > 0,
        rows_for(w, tokens, context(tokens.len())),
        forall|i: int|
            1 <= i <= context(tokens.len()) ==> (#[trigger] tokens[i]) < w["lm_head"@].len(),
    ensures
        worth_of(loss_expr(tokens, w), a) == worth_of(loss_expr(tokens, v), b),
{
    let n = context(tokens.len());
    let (x, y) = (losses(tokens, w, n), losses(tokens, v, n));
    assert forall|i: int| 0 <= i < n implies same(#[trigger] x[i], a, #[trigger] y[i], b) by {
        let m = (i + 1) as nat;
        law_same_numbers_same_logits(tokens, w, a, v, b, m);
        lemma_logits_len(tokens, w, m);
        let l1 = passes(tokens, w, m).logits[i];
        let l2 = passes(tokens, v, m).logits[i];
        assert(same_all(l1, a, l2, b));
        lemma_same_softmax(l1, a, l2, b);
        let target = tokens[i + 1] as int;
        let (p, q) = (softmax_exprs(l1)[target], softmax_exprs(l2)[target]);
        assert(same(p, a, q, b));
        lemma_same_single(Op::Log, p, a, q, b);
        lemma_same_single(
            Op::Neg,
            logarithm(p),
            a,
            logarithm(q),
            b,
        );
        assert(x[i] == loss_at(tokens, w, i));
    }
    lemma_same_total(x, a, y, b, n);
    lemma_same_leaf(Op::Const(ONE), a, b);
    lemma_same_leaf(Op::Number(n as usize), a, b);
    let (one, count) = (constant(ONE), number(n as usize));
    lemma_same_pair(Op::Quotient, one, count, a, one, count, b);
    let share = quotient(one, count);
    lemma_same_pair(Op::Mul, total_expr(x, n), share, a, total_expr(y, n), share, b);
}

} // verus!
