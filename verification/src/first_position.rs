//! At the first position there is only one position to attend to, so queries and keys
//! have no influence there.

use vstd::prelude::*;

use crate::agreement::{
    agree, lemma_same_all, lemma_same_dot, lemma_same_embedded, lemma_same_linear,
    lemma_same_merged, lemma_same_perceived, lemma_same_projected, lemma_worth_of_args, same,
    same_all, same_rows, weights_ready, weights_ready_at,
};
use crate::config::{HEAD_DIM, N_EMBD, N_HEAD, N_LAYER};
use crate::exact::{
    arithmetic, lemma_worth_constant, lemma_worth_pair, worth, worths, Functions,
};
use crate::gpt::{
    after_layer, after_layers, attended, attention_exprs, embedded, gpt_stream, head_column,
    head_exprs, head_logits, head_of, projected, Stream, Weights,
};
use crate::layers::{dot_expr, shifted_exponentials, softmax_exprs, total_expr};
use crate::params::{layer_part, lemma_layer_names, lemma_part_names};
use crate::tape::{
    constant, largest, minus, negated, plus, power, times, worth_of, worths_of, Expr, Op, MINUS_ONE,
    ZERO,
};
use crate::train::no_rows;

verus! {

/// The weight that a softmax gives to a single logit.
pub open spec fn lone_weight<T>(a: spec_fn(Op, Seq<T>) -> T, x: T) -> T {
    let shifted = a(Op::Add, seq![x, a(Op::Neg, seq![a(Op::Max, seq![x])])]);
    let e = a(Op::Exp, seq![shifted]);
    let total = a(Op::Add, seq![a(Op::Const(ZERO), Seq::empty()), e]);
    a(Op::Mul, seq![e, a(Op::Pow(MINUS_ONE), seq![total])])
}

/// What the probability of a single logit is worth.
pub proof fn lemma_lone_weight<T>(a: spec_fn(Op, Seq<T>) -> T, logits: Seq<Expr>)
    requires
        logits.len() == 1,
    ensures
        worth_of(softmax_exprs(logits)[0], a) == lone_weight(a, worth_of(logits[0], a)),
{
    let x = logits[0];
    let top = largest(logits);
    let exps = shifted_exponentials(logits);
    let e = exps[0];
    let zero = constant(ZERO);
    assert(logits =~= seq![x]);
    lemma_worth_of_args(Op::Max, x, x, a);
    lemma_worth_of_args(Op::Neg, top, top, a);
    lemma_worth_of_args(Op::Add, x, negated(top), a);
    lemma_worth_of_args(Op::Exp, minus(x, top), x, a);
    lemma_worth_of_args(Op::Const(ZERO), x, x, a);
    assert(total_expr(exps, 0) == zero);
    assert(total_expr(exps, 1) == plus(zero, e));
    let total = total_expr(exps, 1);
    lemma_worth_of_args(Op::Add, zero, e, a);
    lemma_worth_of_args(Op::Pow(MINUS_ONE), total, total, a);
    lemma_worth_of_args(Op::Mul, e, power(total, MINUS_ONE), a);
}

/// Where the arithmetic is exact, a single logit has the weight one.
proof fn lemma_lone_weight_is_one(f: Functions, x: real)
    requires
        (f.exp)(0real) != 0real,
    ensures
        lone_weight(arithmetic(f), x) == 1real,
{
    let a = arithmetic(f);
    let e = (f.exp)(0real);
    assert(a(Op::Max, seq![x]) == x);
    assert(a(Op::Neg, seq![x]) == -x);
    assert(a(Op::Add, seq![x, -x]) == 0real);
    assert(a(Op::Exp, seq![0real]) == e);
    assert(a(Op::Const(ZERO), Seq::empty()) == 0real);
    assert(a(Op::Add, seq![0real, e]) == e);
    assert(a(Op::Pow(MINUS_ONE), seq![e]) == 1real / e);
    assert(e * (1real / e) == 1real) by (nonlinear_arith)
        requires
            e != 0real,
    ;
}

/// A single logit gets the whole probability.
pub proof fn law_one_logit_has_probability_one(f: Functions, logits: Seq<Expr>)
    requires
        logits.len() == 1,
        (f.exp)(0real) != 0real,
    ensures
        worth(f, softmax_exprs(logits)[0]) == 1real,
{
    lemma_lone_weight(arithmetic(f), logits);
    lemma_lone_weight_is_one(f, worth(f, logits[0]));
}

/// With one position to attend to, a head gives back the value at that position.
proof fn lemma_one_position_head(
    f: Functions,
    q: Seq<Expr>,
    keys: Seq<Seq<Expr>>,
    values: Seq<Seq<Expr>>,
    hs: int,
    j: int,
)
    requires
        keys.len() == 1,
        values.len() >= 1,
        values[0].len() >= N_EMBD,
        0 <= hs,
        hs + HEAD_DIM <= N_EMBD,
        0 <= j < HEAD_DIM,
        (f.exp)(0real) != 0real,
    ensures
        worth(f, head_exprs(q, keys, values, hs)[j]) == worth(f, values[0][hs + j]),
{
    let probs = softmax_exprs(head_logits(q, keys, hs));
    let column = head_column(values, 1, hs, j);
    let x = values[0][hs + j];
    law_one_logit_has_probability_one(f, head_logits(q, keys, hs));
    assert(column[0] == x);
    lemma_worth_constant(f, 0);
    lemma_worth_pair(f, probs[0], x);
    lemma_worth_pair(f, constant(ZERO), times(probs[0], x));
    assert(dot_expr(probs, column, 0) == constant(ZERO));
    assert(dot_expr(probs, column, 1) == plus(constant(ZERO), times(probs[0], x)));
}

/// With one position to attend to, the first `n` heads give back their parts of the
/// value at that position.
pub proof fn law_one_position_gets_all_attention(
    f: Functions,
    q: Seq<Expr>,
    keys: Seq<Seq<Expr>>,
    values: Seq<Seq<Expr>>,
    n: nat,
)
    requires
        keys.len() == 1,
        values.len() >= 1,
        values[0].len() >= N_EMBD,
        n <= N_HEAD,
        (f.exp)(0real) != 0real,
    ensures
        worths(f, attention_exprs(q, keys, values, n)) == worths(f, values[0]).take(n * HEAD_DIM),
    decreases n,
{
    let out = attention_exprs(q, keys, values, n);
    if n > 0 {
        let m = (n - 1) as nat;
        let hs = (n - 1) * HEAD_DIM;
        assert(0 <= hs && hs + HEAD_DIM <= N_EMBD);
        law_one_position_gets_all_attention(f, q, keys, values, m);
        let earlier = attention_exprs(q, keys, values, m);
        let head = head_exprs(q, keys, values, hs);
        assert(worths(f, earlier).len() == hs);
        assert forall|i: int| 0 <= i < out.len() implies worths(f, out)[i] == worths(
            f,
            values[0],
        )[i] by {
            if i < hs {
                assert(out[i] == earlier[i]);
                assert(worths(f, earlier)[i] == worths(f, values[0]).take(hs)[i]);
            } else {
                assert(out[i] == head[i - hs]);
                lemma_one_position_head(f, q, keys, values, hs, i - hs);
            }
        }
    }
    assert(worths(f, out) =~= worths(f, values[0]).take(n * HEAD_DIM));
}

/// Whether a name is that of the queries or the keys of a layer.
pub open spec fn query_or_key(name: Seq<char>) -> bool {
    ||| exists|l: nat| name == #[trigger] layer_part(l, "attn_wq"@)
    ||| exists|l: nat| name == #[trigger] layer_part(l, "attn_wk"@)
}

/// Whether two models hold the same numbers but for queries and keys.
pub open spec fn same_but_queries_and_keys<T>(
    a: spec_fn(Op, Seq<T>) -> T,
    w: Weights,
    v: Weights,
) -> bool {
    forall|name: Seq<char>| #[trigger]
        w.contains_key(name) && !query_or_key(name) ==> same_rows(w[name], a, v[name], a)
}

proof fn lemma_other_names(l: nat)
    ensures
        !query_or_key("wte"@),
        !query_or_key("wpe"@),
        !query_or_key("lm_head"@),
        !query_or_key(layer_part(l, "attn_wv"@)),
        !query_or_key(layer_part(l, "attn_wo"@)),
        !query_or_key(layer_part(l, "mlp_fc1"@)),
        !query_or_key(layer_part(l, "mlp_fc2"@)),
{
    lemma_layer_names();
    lemma_part_names();
}

/// What enters the first layer at a first position.
pub open spec fn first_stream(token_id: int, pos_id: int, w: Weights) -> Stream {
    Stream { x: embedded(token_id, pos_id, w), keys: no_rows(), values: no_rows() }
}

/// The logit of the only position, in head `h` of layer `l`.
pub open spec fn lone_logit(s: Stream, w: Weights, l: nat, h: nat) -> Expr {
    head_logits(
        projected(s.x, w, l, "attn_wq"@),
        seq![projected(s.x, w, l, "attn_wk"@)],
        h * HEAD_DIM,
    )[0]
}

/// Whether the logit of the only position gets the weight `one`, in every head of a layer.
pub open spec fn lone_logits_weigh<T>(
    a: spec_fn(Op, Seq<T>) -> T,
    one: T,
    s: Stream,
    w: Weights,
    l: nat,
) -> bool {
    forall|h: nat|
        h < N_HEAD ==> lone_weight(a, worth_of(#[trigger] lone_logit(s, w, l, h), a)) == one
}

/// Whether that is so in every layer, at a first position.
pub open spec fn first_position_weighs<T>(
    a: spec_fn(Op, Seq<T>) -> T,
    one: T,
    token_id: int,
    pos_id: int,
    w: Weights,
) -> bool {
    forall|l: nat|
        l < N_LAYER ==> lone_logits_weigh(
            a,
            one,
            #[trigger] after_layers(first_stream(token_id, pos_id, w), w, l),
            w,
            l,
        )
}

/// Heads that give the only position the same weight give back the same.
proof fn lemma_lone_heads<T>(
    a: spec_fn(Op, Seq<T>) -> T,
    one: T,
    s: Stream,
    w: Weights,
    t: Stream,
    v: Weights,
    vs: Seq<Seq<Expr>>,
    vt: Seq<Seq<Expr>>,
    l: nat,
    n: nat,
)
    requires
        lone_logits_weigh(a, one, s, w, l),
        lone_logits_weigh(a, one, t, v, l),
        vs.len() == 1,
        vt.len() == 1,
        vs[0].len() >= N_EMBD,
        same_all(vs[0], a, vt[0], a),
        n <= N_HEAD,
    ensures
        ({
            let q1 = projected(s.x, w, l, "attn_wq"@);
            let q2 = projected(t.x, v, l, "attn_wq"@);
            let k1 = seq![projected(s.x, w, l, "attn_wk"@)];
            let k2 = seq![projected(t.x, v, l, "attn_wk"@)];
            same_all(attention_exprs(q1, k1, vs, n), a, attention_exprs(q2, k2, vt, n), a)
        }),
    decreases n,
{
    let q1 = projected(s.x, w, l, "attn_wq"@);
    let q2 = projected(t.x, v, l, "attn_wq"@);
    let k1 = seq![projected(s.x, w, l, "attn_wk"@)];
    let k2 = seq![projected(t.x, v, l, "attn_wk"@)];
    if n > 0 {
        let m = (n - 1) as nat;
        let hs = (n - 1) * HEAD_DIM;
        assert(0 <= hs && hs + HEAD_DIM <= N_EMBD);
        lemma_lone_heads(a, one, s, w, t, v, vs, vt, l, m);
        let (l1, l2) = (head_logits(q1, k1, hs), head_logits(q2, k2, hs));
        assert(l1[0] == lone_logit(s, w, l, m));
        assert(l2[0] == lone_logit(t, v, l, m));
        lemma_lone_weight(a, l1);
        lemma_lone_weight(a, l2);
        let (p1, p2) = (softmax_exprs(l1), softmax_exprs(l2));
        assert(same_all(p1, a, p2, a)) by {
            assert(same(p1[0], a, p2[0], a));
        }
        let (o1, o2) = (head_exprs(q1, k1, vs, hs), head_exprs(q2, k2, vt, hs));
        assert forall|j: int| 0 <= j < o1.len() implies same(#[trigger] o1[j], a, #[trigger] o2[j], a) by {
            let c1 = head_column(vs, 1, hs, j);
            let c2 = head_column(vt, 1, hs, j);
            assert(same(vs[0][hs + j], a, vt[0][hs + j], a));
            assert(same_all(c1, a, c2, a)) by {
                assert(c1[0] == vs[0][hs + j] && c2[0] == vt[0][hs + j]);
            }
            assert(agree(a, a));
            lemma_same_dot(p1, c1, a, p2, c2, a, 1);
        }
        let (x, y) = (attention_exprs(q1, k1, vs, m), attention_exprs(q2, k2, vt, m));
        assert forall|i: int| 0 <= i < (x + o1).len() implies same(
            #[trigger] (x + o1)[i],
            a,
            #[trigger] (y + o2)[i],
            a,
        ) by {
            if i < x.len() {
                assert(same(x[i], a, y[i], a));
            } else {
                assert(same(o1[i - x.len()], a, o2[i - x.len()], a));
            }
        }
    }
}

/// A layer at the first position.
proof fn lemma_first_layer<T>(
    a: spec_fn(Op, Seq<T>) -> T,
    one: T,
    s: Stream,
    w: Weights,
    t: Stream,
    v: Weights,
    l: nat,
)
    requires
        lone_logits_weigh(a, one, s, w, l),
        lone_logits_weigh(a, one, t, v, l),
        weights_ready(w),
        weights_ready(v),
        same_but_queries_and_keys(a, w, v),
        l < N_LAYER,
        s.keys.len() == N_LAYER,
        s.values.len() == N_LAYER,
        t.keys.len() == N_LAYER,
        t.values.len() == N_LAYER,
        s.keys[l as int].len() == 0,
        s.values[l as int].len() == 0,
        t.keys[l as int].len() == 0,
        t.values[l as int].len() == 0,
        same_all(s.x, a, t.x, a),
    ensures
        same_all(after_layer(s, w, l).x, a, after_layer(t, v, l).x, a),
{
    let i = l as int;
    let n = N_HEAD as nat;
    assert(agree(a, a));
    assert(weights_ready_at(w, l));
    assert(weights_ready_at(v, l));
    lemma_other_names(l);
    lemma_same_projected(s.x, w, a, t.x, v, a, l, "attn_wv"@);
    let (v1, v2) = (projected(s.x, w, l, "attn_wv"@), projected(t.x, v, l, "attn_wv"@));
    let (q1, q2) = (projected(s.x, w, l, "attn_wq"@), projected(t.x, v, l, "attn_wq"@));
    let (k1, k2) = (projected(s.x, w, l, "attn_wk"@), projected(t.x, v, l, "attn_wk"@));
    let (ks, kt) = (s.keys[i].push(k1), t.keys[i].push(k2));
    let (vs, vt) = (s.values[i].push(v1), t.values[i].push(v2));
    assert(ks =~= seq![k1] && kt =~= seq![k2]);
    assert(vs[0] == v1 && vt[0] == v2);
    lemma_lone_heads(a, one, s, w, t, v, vs, vt, l, n);
    let (h1, h2) = (attention_exprs(q1, ks, vs, n), attention_exprs(q2, kt, vt, n));
    let name = layer_part(l, "attn_wo"@);
    lemma_same_merged(h1, s.x, w[name], a, h2, t.x, v[name], a);
    lemma_same_perceived(attended(s.x, ks, vs, w, l), w, a, attended(t.x, kt, vt, v, l), v, a, l);
}

/// The first `n` layers leave the keys and values of the later ones empty.
proof fn lemma_layers_to_come(s: Stream, w: Weights, n: nat)
    requires
        n <= N_LAYER,
        s.keys == no_rows(),
        s.values == no_rows(),
    ensures
        after_layers(s, w, n).keys.len() == N_LAYER,
        after_layers(s, w, n).values.len() == N_LAYER,
        forall|l: int|
            n <= l < N_LAYER ==> (#[trigger] after_layers(s, w, n).keys[l]).len() == 0,
        forall|l: int|
            n <= l < N_LAYER ==> (#[trigger] after_layers(s, w, n).values[l]).len() == 0,
    decreases n,
{
    if n > 0 {
        lemma_layers_to_come(s, w, (n - 1) as nat);
    }
}

/// The first `n` layers at the first position.
proof fn lemma_first_layers<T>(
    a: spec_fn(Op, Seq<T>) -> T,
    one: T,
    token_id: int,
    pos_id: int,
    w: Weights,
    v: Weights,
    n: nat,
)
    requires
        first_position_weighs(a, one, token_id, pos_id, w),
        first_position_weighs(a, one, token_id, pos_id, v),
        weights_ready(w),
        weights_ready(v),
        same_but_queries_and_keys(a, w, v),
        n <= N_LAYER,
        0 <= token_id < w["wte"@].len(),
        0 <= pos_id < w["wpe"@].len(),
    ensures
        same_all(
            after_layers(first_stream(token_id, pos_id, w), w, n).x,
            a,
            after_layers(first_stream(token_id, pos_id, v), v, n).x,
            a,
        ),
    decreases n,
{
    let (s, t) = (first_stream(token_id, pos_id, w), first_stream(token_id, pos_id, v));
    if n == 0 {
        lemma_other_names(0);
        assert(agree(a, a));
        lemma_same_embedded(token_id, pos_id, w, a, v, a);
    } else {
        let m = (n - 1) as nat;
        lemma_first_layers(a, one, token_id, pos_id, w, v, m);
        lemma_layers_to_come(s, w, m);
        lemma_layers_to_come(t, v, m);
        let (s1, t1) = (after_layers(s, w, m), after_layers(t, v, m));
        assert(lone_logits_weigh(a, one, s1, w, m));
        assert(lone_logits_weigh(a, one, t1, v, m));
        lemma_first_layer(a, one, s1, w, t1, v, m);
    }
}

/// At the first position, queries and keys have no influence, in every arithmetic that
/// gives the only position one and the same weight there: models that hold the same
/// numbers but for queries and keys have logits that are worth the same.
pub proof fn law_first_position_in_any_arithmetic<T>(
    a: spec_fn(Op, Seq<T>) -> T,
    one: T,
    w: Weights,
    v: Weights,
    token_id: int,
    pos_id: int,
)
    requires
        first_position_weighs(a, one, token_id, pos_id, w),
        first_position_weighs(a, one, token_id, pos_id, v),
        weights_ready(w),
        weights_ready(v),
        same_but_queries_and_keys(a, w, v),
        0 <= token_id < w["wte"@].len(),
        0 <= pos_id < w["wpe"@].len(),
    ensures
        worths_of(head_of(gpt_stream(token_id, pos_id, no_rows(), no_rows(), w), w), a)
            == worths_of(
            head_of(gpt_stream(token_id, pos_id, no_rows(), no_rows(), v), v),
            a,
        ),
{
    lemma_other_names(0);
    assert(agree(a, a));
    lemma_first_layers(a, one, token_id, pos_id, w, v, N_LAYER as nat);
    let (s1, t1) = (
        gpt_stream(token_id, pos_id, no_rows(), no_rows(), w),
        gpt_stream(token_id, pos_id, no_rows(), no_rows(), v),
    );
    lemma_same_linear(s1.x, w["lm_head"@], a, t1.x, v["lm_head"@], a);
    lemma_same_all(head_of(s1, w), a, head_of(t1, v), a);
}

/// Where the arithmetic is exact, queries and keys have no influence at the first
/// position: models that hold the same numbers but for those have logits that are worth
/// the same. Asked of the exponential is only that it is not zero at zero.
pub proof fn law_first_position_ignores_queries_and_keys(
    f: Functions,
    w: Weights,
    v: Weights,
    token_id: int,
    pos_id: int,
)
    requires
        (f.exp)(0real) != 0real,
        weights_ready(w),
        weights_ready(v),
        same_but_queries_and_keys(arithmetic(f), w, v),
        0 <= token_id < w["wte"@].len(),
        0 <= pos_id < w["wpe"@].len(),
    ensures
        worths_of(
            head_of(gpt_stream(token_id, pos_id, no_rows(), no_rows(), w), w),
            arithmetic(f),
        ) == worths_of(
            head_of(gpt_stream(token_id, pos_id, no_rows(), no_rows(), v), v),
            arithmetic(f),
        ),
{
    let a = arithmetic(f);
    assert forall|x: real| #[trigger] lone_weight(a, x) == 1real by {
        lemma_lone_weight_is_one(f, x);
    }
    law_first_position_in_any_arithmetic(a, 1real, w, v, token_id, pos_id);
}

} // verus!
