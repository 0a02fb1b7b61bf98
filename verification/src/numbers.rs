//! What the network computes, number by number, where the arithmetic is exact.
//!
//! Every law here says what a result is worth in terms of what its inputs are worth,
//! with nothing but sums, products and the given functions.

use vstd::prelude::*;

use crate::config::{BLOCK_SIZE, EPS_NORM, HEAD_DIM, N_EMBD, N_HEAD, N_LAYER, TEMPERATURE};
use crate::exact::{
    arithmetic, greatest, law_softmax_ignores_the_shift, lemma_worth_constant, lemma_worth_pair,
    lemma_worth_scale, lemma_worth_single, lemma_worth_total, squares, sum, sum_to_product, worth,
    worths, Functions,
};
use crate::gpt::{
    after_layer, after_layers, attended, attention_exprs, embedded, gpt_stream, head_column,
    head_exprs, head_logits, head_of, head_part, head_scale, perceived, projected, Stream,
    Weights,
};
use crate::layers::{
    dot_expr, linear_exprs, relu_exprs, rms_scale_expr, rmsnorm_exprs, scaled_exprs,
    softmax_exprs, sum_exprs, total_expr,
};
use crate::params::layer_part;
use crate::sampler::next_probabilities;
use crate::tape::{
    constant, largest, logarithm, minus, number, quotient, root, times, worths_of, Expr, Op,
    MINUS_HALF, ONE,
};
use crate::train::{lemma_logits_len, loss_at, loss_expr, losses, passes};

verus! {

/// Two sums with the same summands are the same.
pub proof fn lemma_sums(xs: Seq<real>, ys: Seq<real>)
    requires
        xs.len() == ys.len(),
        forall|i: int| 0 <= i < xs.len() ==> #[trigger] xs[i] == ys[i],
    ensures
        sum(xs) == sum(ys),
{
    assert(xs =~= ys);
}

/// A scalar product adds up the products of the entries.
pub proof fn law_scalar_product(f: Functions, x: Seq<Expr>, y: Seq<Expr>, n: nat)
    requires
        n <= x.len(),
        n <= y.len(),
    ensures
        worth(f, dot_expr(x, y, n)) == sum(Seq::new(n, |c: int| worth(f, x[c]) * worth(f, y[c]))),
    decreases n,
{
    let all = Seq::new(n, |c: int| worth(f, x[c]) * worth(f, y[c]));
    if n == 0 {
        lemma_worth_constant(f, 0);
    } else {
        let m = (n - 1) as nat;
        law_scalar_product(f, x, y, m);
        lemma_worth_pair(f, x[n - 1], y[n - 1]);
        lemma_worth_pair(f, dot_expr(x, y, m), times(x[n - 1], y[n - 1]));
        assert(all.drop_last() =~= Seq::new(m, |c: int| worth(f, x[c]) * worth(f, y[c])));
    }
}

/// A linear layer has an entry for every row of its matrix: the sum over the columns of
/// the entry of the row times the entry of the vector. What is longer, row or vector, is
/// cut.
pub proof fn law_linear_layer(f: Functions, x: Seq<Expr>, w: Seq<Seq<Expr>>, r: int, n: nat)
    requires
        0 <= r < w.len(),
        n <= w[r].len(),
        n <= x.len(),
        n == w[r].len() || n == x.len(),
    ensures
        linear_exprs(x, w).len() == w.len(),
        worth(f, linear_exprs(x, w)[r]) == sum(
            Seq::new(n, |c: int| worth(f, w[r][c]) * worth(f, x[c])),
        ),
{
    law_scalar_product(f, w[r], x, n);
}

/// Vectors are added entry by entry; the longer is cut.
pub proof fn law_vectors_add(f: Functions, x: Seq<Expr>, y: Seq<Expr>, i: int)
    ensures
        sum_exprs(x, y).len() <= x.len(),
        sum_exprs(x, y).len() <= y.len(),
        sum_exprs(x, y).len() == x.len() || sum_exprs(x, y).len() == y.len(),
        0 <= i < x.len() && i < y.len() ==> worth(f, sum_exprs(x, y)[i]) == worth(f, x[i]) + worth(
            f,
            y[i],
        ),
{
    if 0 <= i < x.len() && i < y.len() {
        lemma_worth_pair(f, x[i], y[i]);
    }
}

/// A rectifier keeps what is positive and makes everything else zero.
pub proof fn law_rectifier(f: Functions, x: Seq<Expr>, i: int)
    requires
        0 <= i < x.len(),
    ensures
        relu_exprs(x).len() == x.len(),
        worth(f, x[i]) > 0real ==> worth(f, relu_exprs(x)[i]) == worth(f, x[i]),
        worth(f, x[i]) <= 0real ==> worth(f, relu_exprs(x)[i]) == 0real,
{
    lemma_worth_single(f, x[i], 0);
}

/// Normalising multiplies every entry by one and the same factor: the power `-0.5` of
/// the mean of the squares, with the small number added.
pub proof fn law_normalisation(f: Functions, x: Seq<Expr>, i: int)
    requires
        0 <= i < x.len() <= usize::MAX,
    ensures
        rmsnorm_exprs(x).len() == x.len(),
        worth(f, rmsnorm_exprs(x)[i]) == worth(f, x[i]) * (f.rest)(
            Op::Pow(MINUS_HALF),
            seq![
                sum(Seq::new(x.len(), |k: int| worth(f, x[k]) * worth(f, x[k]))) / (x.len() as int
                    as real) + worth(f, constant(EPS_NORM)),
            ],
        ),
{
    let xs = worths(f, x);
    lemma_worth_pair(f, x[i], rms_scale_expr(x));
    lemma_worth_scale(f, x);
    lemma_sums(
        squares(xs),
        Seq::new(x.len(), |k: int| worth(f, x[k]) * worth(f, x[k])),
    );
}

/// The probabilities of a softmax are the exponentials of the logits, each divided by
/// the sum of all.
pub proof fn law_softmax(f: Functions, logits: Seq<Expr>, i: int)
    requires
        0 <= i < logits.len(),
        forall|x: real| #[trigger] (f.exp)(x) > 0real,
        forall|x: real, y: real| #[trigger] sum_to_product(f.exp, x, y),
    ensures
        softmax_exprs(logits).len() == logits.len(),
        worth(f, softmax_exprs(logits)[i]) == (f.exp)(worth(f, logits[i])) / sum(
            Seq::new(logits.len(), |k: int| (f.exp)(worth(f, logits[k]))),
        ),
{
    law_softmax_ignores_the_shift(f, logits, i);
    lemma_sums(
        worths(f, logits).map_values(|x: real| (f.exp)(x)),
        Seq::new(logits.len(), |k: int| (f.exp)(worth(f, logits[k]))),
    );
}

/// What enters the first layer is, but for one common factor, the sum of the row of the
/// token in `wte` and the row of the position in `wpe`, whatever the token and the
/// position.
pub proof fn law_embedding(f: Functions, w: Weights, token_id: int, pos_id: int, i: int)
    requires
        0 <= token_id < w["wte"@].len(),
        0 <= pos_id < w["wpe"@].len(),
        w["wte"@][token_id].len() == w["wpe"@][pos_id].len() <= usize::MAX,
        0 <= i < w["wte"@][token_id].len(),
    ensures
        ({
            let t = w["wte"@][token_id];
            let p = w["wpe"@][pos_id];
            let mean = sum(
                Seq::new(
                    t.len(),
                    |k: int|
                        (worth(f, t[k]) + worth(f, p[k])) * (worth(f, t[k]) + worth(f, p[k])),
                ),
            ) / (t.len() as int as real);
            &&& embedded(token_id, pos_id, w).len() == t.len()
            &&& worth(f, embedded(token_id, pos_id, w)[i]) == (worth(f, t[i]) + worth(f, p[i]))
                * (f.rest)(
                Op::Pow(MINUS_HALF),
                seq![mean + worth(f, constant(EPS_NORM))],
            )
        }),
{
    let t = w["wte"@][token_id];
    let p = w["wpe"@][pos_id];
    let x = sum_exprs(t, p);
    law_vectors_add(f, t, p, i);
    law_normalisation(f, x, i);
    let a = Seq::new(x.len(), |k: int| worth(f, x[k]) * worth(f, x[k]));
    let b = Seq::new(
        t.len(),
        |k: int| (worth(f, t[k]) + worth(f, p[k])) * (worth(f, t[k]) + worth(f, p[k])),
    );
    assert forall|k: int| 0 <= k < a.len() implies #[trigger] a[k] == b[k] by {
        law_vectors_add(f, t, p, k);
    }
    lemma_sums(a, b);
}

/// How well the query matches the key at position `t`, in the head at offset `hs`.
pub open spec fn match_of(
    f: Functions,
    q: Seq<Expr>,
    keys: Seq<Seq<Expr>>,
    hs: int,
    t: int,
) -> real {
    sum(
        Seq::new(HEAD_DIM as nat, |c: int| worth(f, q[hs + c]) * worth(f, keys[t][hs + c])),
    ) * (1real / (f.rest)(Op::Root, seq![HEAD_DIM as int as real]))
}

/// The logits of a head are the scalar products of its parts of the query and of the
/// keys, over the root of its width.
proof fn lemma_head_logit(
    f: Functions,
    q: Seq<Expr>,
    keys: Seq<Seq<Expr>>,
    hs: int,
    t: int,
)
    requires
        0 <= t < keys.len(),
        0 <= hs,
        hs + HEAD_DIM <= q.len(),
        hs + HEAD_DIM <= keys[t].len(),
    ensures
        worth(f, head_logits(q, keys, hs)[t]) == match_of(f, q, keys, hs, t),
{
    let (x, y) = (head_part(q, hs), head_part(keys[t], hs));
    let n = HEAD_DIM as nat;
    law_scalar_product(f, x, y, n);
    lemma_sums(
        Seq::new(n, |c: int| worth(f, x[c]) * worth(f, y[c])),
        Seq::new(n, |c: int| worth(f, q[hs + c]) * worth(f, keys[t][hs + c])),
    );
    lemma_worth_constant(f, HEAD_DIM);
    lemma_worth_single(f, number(HEAD_DIM), 0);
    lemma_worth_pair(f, constant(ONE), root(number(HEAD_DIM)));
    lemma_worth_pair(f, dot_expr(x, y, n), head_scale());
}

/// A head mixes the values of all positions so far, each weighed by the exponential of
/// how well its key matches the query, over the sum of all those exponentials.
proof fn lemma_head(
    f: Functions,
    q: Seq<Expr>,
    keys: Seq<Seq<Expr>>,
    values: Seq<Seq<Expr>>,
    hs: int,
    j: int,
)
    requires
        forall|x: real| #[trigger] (f.exp)(x) > 0real,
        forall|x: real, y: real| #[trigger] sum_to_product(f.exp, x, y),
        keys.len() == values.len(),
        0 <= hs,
        hs + HEAD_DIM <= q.len(),
        forall|t: int| 0 <= t < keys.len() ==> hs + HEAD_DIM <= (#[trigger] keys[t]).len(),
        forall|t: int| 0 <= t < values.len() ==> hs + HEAD_DIM <= (#[trigger] values[t]).len(),
        0 <= j < HEAD_DIM,
    ensures
        worth(f, head_exprs(q, keys, values, hs)[j]) == sum(
            Seq::new(
                keys.len(),
                |t: int|
                    (f.exp)(match_of(f, q, keys, hs, t)) / sum(
                        Seq::new(keys.len(), |u: int| (f.exp)(match_of(f, q, keys, hs, u))),
                    ) * worth(f, values[t][hs + j]),
            ),
        ),
{
    let n = keys.len();
    let logits = head_logits(q, keys, hs);
    let probs = softmax_exprs(logits);
    let column = head_column(values, n, hs, j);
    law_scalar_product(f, probs, column, n);
    let e1 = Seq::new(n, |k: int| (f.exp)(worth(f, logits[k])));
    let e2 = Seq::new(n, |u: int| (f.exp)(match_of(f, q, keys, hs, u)));
    assert forall|k: int| 0 <= k < n implies #[trigger] e1[k] == e2[k] by {
        assert(hs + HEAD_DIM <= keys[k].len());
        lemma_head_logit(f, q, keys, hs, k);
    }
    lemma_sums(e1, e2);
    let a = Seq::new(n, |c: int| worth(f, probs[c]) * worth(f, column[c]));
    let b = Seq::new(
        n,
        |t: int|
            (f.exp)(match_of(f, q, keys, hs, t)) / sum(
                Seq::new(n, |u: int| (f.exp)(match_of(f, q, keys, hs, u))),
            ) * worth(f, values[t][hs + j]),
    );
    assert(e2 == Seq::new(n, |u: int| (f.exp)(match_of(f, q, keys, hs, u))));
    assert forall|t: int| 0 <= t < n implies #[trigger] a[t] == b[t] by {
        law_softmax(f, logits, t);
        assert(e1 == Seq::new(n, |k: int| (f.exp)(worth(f, logits[k]))));
        assert(e1[t] == e2[t]);
        assert(hs + HEAD_DIM <= values[t].len());
        assert(column[t] == values[t][hs + j]);
    }
    lemma_sums(a, b);
}

/// The heads stand one after the other.
pub proof fn lemma_heads(
    q: Seq<Expr>,
    keys: Seq<Seq<Expr>>,
    values: Seq<Seq<Expr>>,
    n: nat,
    h: nat,
    j: int,
)
    requires
        h < n,
        0 <= j < HEAD_DIM,
    ensures
        attention_exprs(q, keys, values, n).len() == n * HEAD_DIM,
        attention_exprs(q, keys, values, n)[h * HEAD_DIM + j] == head_exprs(
            q,
            keys,
            values,
            h * HEAD_DIM,
        )[j],
    decreases n,
{
    let m = (n - 1) as nat;
    lemma_heads_len(q, keys, values, m);
    if h < m {
        lemma_heads(q, keys, values, m, h, j);
    }
}

pub proof fn lemma_heads_len(q: Seq<Expr>, keys: Seq<Seq<Expr>>, values: Seq<Seq<Expr>>, n: nat)
    ensures
        attention_exprs(q, keys, values, n).len() == n * HEAD_DIM,
    decreases n,
{
    if n > 0 {
        lemma_heads_len(q, keys, values, (n - 1) as nat);
    }
}

/// Attention has the width of the network. Its entry `j` of head `h` mixes that entry
/// of the values of all positions so far, each weighed by the exponential of how well
/// the key matches the query in that head, over the sum of all those exponentials.
pub proof fn law_attention(
    f: Functions,
    q: Seq<Expr>,
    keys: Seq<Seq<Expr>>,
    values: Seq<Seq<Expr>>,
    h: nat,
    j: int,
)
    requires
        forall|x: real| #[trigger] (f.exp)(x) > 0real,
        forall|x: real, y: real| #[trigger] sum_to_product(f.exp, x, y),
        keys.len() == values.len(),
        q.len() == N_EMBD,
        forall|t: int| 0 <= t < keys.len() ==> (#[trigger] keys[t]).len() == N_EMBD,
        forall|t: int| 0 <= t < values.len() ==> (#[trigger] values[t]).len() == N_EMBD,
        h < N_HEAD,
        0 <= j < HEAD_DIM,
    ensures
        N_HEAD * HEAD_DIM == N_EMBD,
        attention_exprs(q, keys, values, N_HEAD as nat).len() == N_EMBD,
        forall|t: int| #[trigger]
            match_of(f, q, keys, h * HEAD_DIM, t) == sum(
                Seq::new(
                    HEAD_DIM as nat,
                    |c: int|
                        worth(f, q[h * HEAD_DIM + c]) * worth(f, keys[t][h * HEAD_DIM + c]),
                ),
            ) * (1real / (f.rest)(Op::Root, seq![HEAD_DIM as int as real])),
        worth(f, attention_exprs(q, keys, values, N_HEAD as nat)[h * HEAD_DIM + j]) == sum(
            Seq::new(
                keys.len(),
                |t: int|
                    (f.exp)(match_of(f, q, keys, h * HEAD_DIM, t)) / sum(
                        Seq::new(
                            keys.len(),
                            |u: int| (f.exp)(match_of(f, q, keys, h * HEAD_DIM, u)),
                        ),
                    ) * worth(f, values[t][h * HEAD_DIM + j]),
            ),
        ),
{
    let hs = h * HEAD_DIM;
    assert(N_HEAD * HEAD_DIM == N_EMBD);
    assert(0 <= hs && hs + HEAD_DIM <= N_EMBD) by (nonlinear_arith)
        requires
            hs == h * HEAD_DIM,
            h + 1 <= N_HEAD,
            N_HEAD * HEAD_DIM == N_EMBD,
    ;
    lemma_heads(q, keys, values, N_HEAD as nat, h, j);
    assert forall|t: int| 0 <= t < keys.len() implies hs + HEAD_DIM <= (#[trigger] keys[t]).len() by {
        assert(keys[t].len() == N_EMBD);
    }
    assert forall|t: int| 0 <= t < values.len() implies hs + HEAD_DIM
        <= (#[trigger] values[t]).len() by {
        assert(values[t].len() == N_EMBD);
    }
    lemma_head(f, q, keys, values, hs, j);
}

/// The factor by which a vector is normalised.
pub open spec fn norm_factor(f: Functions, x: Seq<Expr>) -> real {
    (f.rest)(
        Op::Pow(MINUS_HALF),
        seq![
            sum(Seq::new(x.len(), |k: int| worth(f, x[k]) * worth(f, x[k]))) / (x.len() as int
                as real) + worth(f, constant(EPS_NORM)),
        ],
    )
}

/// Queries, keys, values and the hidden entries of a layer are its matrices applied to
/// the normalised vector.
pub proof fn law_projection(
    f: Functions,
    x: Seq<Expr>,
    w: Weights,
    l: nat,
    part: Seq<char>,
    r: int,
)
    requires
        0 <= r < w[layer_part(l, part)].len(),
        w[layer_part(l, part)][r].len() == x.len() <= usize::MAX,
    ensures
        projected(x, w, l, part).len() == w[layer_part(l, part)].len(),
        norm_factor(f, x) == (f.rest)(
            Op::Pow(MINUS_HALF),
            seq![
                sum(Seq::new(x.len(), |k: int| worth(f, x[k]) * worth(f, x[k]))) / (x.len() as int
                    as real) + worth(f, constant(EPS_NORM)),
            ],
        ),
        worth(f, projected(x, w, l, part)[r]) == sum(
            Seq::new(
                x.len(),
                |c: int|
                    worth(f, w[layer_part(l, part)][r][c]) * (worth(f, x[c]) * norm_factor(f, x)),
            ),
        ),
{
    let m = w[layer_part(l, part)];
    let xn = rmsnorm_exprs(x);
    law_linear_layer(f, xn, m, r, x.len());
    let a = Seq::new(x.len(), |c: int| worth(f, m[r][c]) * worth(f, xn[c]));
    let b = Seq::new(
        x.len(),
        |c: int| worth(f, m[r][c]) * (worth(f, x[c]) * norm_factor(f, x)),
    );
    assert forall|c: int| 0 <= c < a.len() implies #[trigger] a[c] == b[c] by {
        law_normalisation(f, x, c);
    }
    lemma_sums(a, b);
}

/// The first half of a layer adds to its input what its output matrix makes of the
/// attention of its queries.
pub proof fn law_first_half(
    f: Functions,
    x: Seq<Expr>,
    keys: Seq<Seq<Expr>>,
    values: Seq<Seq<Expr>>,
    w: Weights,
    l: nat,
    i: int,
)
    requires
        w[layer_part(l, "attn_wo"@)].len() == x.len(),
        0 <= i < x.len(),
        w[layer_part(l, "attn_wo"@)][i].len() == N_EMBD,
    ensures
        attended(x, keys, values, w, l).len() == x.len(),
        worth(f, attended(x, keys, values, w, l)[i]) == worth(f, x[i]) + sum(
            Seq::new(
                N_EMBD as nat,
                |c: int|
                    worth(f, w[layer_part(l, "attn_wo"@)][i][c]) * worth(
                        f,
                        attention_exprs(
                            projected(x, w, l, "attn_wq"@),
                            keys,
                            values,
                            N_HEAD as nat,
                        )[c],
                    ),
            ),
        ),
{
    let m = w[layer_part(l, "attn_wo"@)];
    let q = projected(x, w, l, "attn_wq"@);
    let h = attention_exprs(q, keys, values, N_HEAD as nat);
    lemma_heads_len(q, keys, values, N_HEAD as nat);
    assert(h.len() == N_EMBD);
    law_linear_layer(f, h, m, i, N_EMBD as nat);
    law_vectors_add(f, linear_exprs(h, m), x, i);
    lemma_sums(
        Seq::new(N_EMBD as nat, |c: int| worth(f, m[i][c]) * worth(f, h[c])),
        Seq::new(
            N_EMBD as nat,
            |c: int|
                worth(f, w[layer_part(l, "attn_wo"@)][i][c]) * worth(
                    f,
                    attention_exprs(
                        projected(x, w, l, "attn_wq"@),
                        keys,
                        values,
                        N_HEAD as nat,
                    )[c],
                ),
        ),
    );
}

/// A number where it is positive, else zero.
pub open spec fn positive_part(x: real) -> real {
    if x > 0real {
        x
    } else {
        0real
    }
}

/// The second half of a layer adds to its input what its second matrix makes of the
/// positive parts of what its first matrix makes of the normalised input.
pub proof fn law_second_half(f: Functions, x: Seq<Expr>, w: Weights, l: nat, i: int)
    requires
        w[layer_part(l, "mlp_fc2"@)].len() == x.len() <= usize::MAX,
        0 <= i < x.len(),
        w[layer_part(l, "mlp_fc2"@)][i].len() == w[layer_part(l, "mlp_fc1"@)].len(),
        forall|c: int|
            0 <= c < w[layer_part(l, "mlp_fc1"@)].len() ==> (#[trigger] w[layer_part(
                l,
                "mlp_fc1"@,
            )][c]).len() == x.len(),
    ensures
        perceived(x, w, l).len() == x.len(),
        forall|y: real|
            (y > 0real ==> #[trigger] positive_part(y) == y) && (y <= 0real ==> positive_part(y)
                == 0real),
        worth(f, perceived(x, w, l)[i]) == worth(f, x[i]) + sum(
            Seq::new(
                w[layer_part(l, "mlp_fc1"@)].len(),
                |c: int|
                    worth(f, w[layer_part(l, "mlp_fc2"@)][i][c]) * positive_part(
                        sum(
                            Seq::new(
                                x.len(),
                                |d: int|
                                    worth(f, w[layer_part(l, "mlp_fc1"@)][c][d]) * (worth(f, x[d])
                                        * norm_factor(f, x)),
                            ),
                        ),
                    ),
            ),
        ),
{
    let m1 = w[layer_part(l, "mlp_fc1"@)];
    let m2 = w[layer_part(l, "mlp_fc2"@)];
    let hidden = projected(x, w, l, "mlp_fc1"@);
    let active = relu_exprs(hidden);
    law_linear_layer(f, active, m2, i, m1.len());
    law_vectors_add(f, linear_exprs(active, m2), x, i);
    let a = Seq::new(m1.len(), |c: int| worth(f, m2[i][c]) * worth(f, active[c]));
    let b = Seq::new(
        m1.len(),
        |c: int|
            worth(f, m2[i][c]) * positive_part(
                sum(
                    Seq::new(
                        x.len(),
                        |d: int| worth(f, m1[c][d]) * (worth(f, x[d]) * norm_factor(f, x)),
                    ),
                ),
            ),
    );
    assert forall|c: int| 0 <= c < a.len() implies #[trigger] a[c] == b[c] by {
        assert(m1[c].len() == x.len());
        law_projection(f, x, w, l, "mlp_fc1"@, c);
        law_rectifier(f, hidden, c);
        lemma_sums(
            Seq::new(
                x.len(),
                |d: int|
                    worth(f, w[layer_part(l, "mlp_fc1"@)][c][d]) * (worth(f, x[d]) * norm_factor(
                        f,
                        x,
                    )),
            ),
            Seq::new(x.len(), |d: int| worth(f, m1[c][d]) * (worth(f, x[d]) * norm_factor(f, x))),
        );
    }
    lemma_sums(a, b);
    let goal = Seq::new(
        w[layer_part(l, "mlp_fc1"@)].len(),
        |c: int|
            worth(f, w[layer_part(l, "mlp_fc2"@)][i][c]) * positive_part(
                sum(
                    Seq::new(
                        x.len(),
                        |d: int|
                            worth(f, w[layer_part(l, "mlp_fc1"@)][c][d]) * (worth(f, x[d])
                                * norm_factor(f, x)),
                    ),
                ),
            ),
    );
    assert forall|c: int| 0 <= c < b.len() implies #[trigger] b[c] == goal[c] by {
        lemma_sums(
            Seq::new(
                x.len(),
                |d: int|
                    worth(f, w[layer_part(l, "mlp_fc1"@)][c][d]) * (worth(f, x[d]) * norm_factor(
                        f,
                        x,
                    )),
            ),
            Seq::new(x.len(), |d: int| worth(f, m1[c][d]) * (worth(f, x[d]) * norm_factor(f, x))),
        );
    }
    lemma_sums(b, goal);
}

/// A layer puts its key and its value below those that it has, leaves those of the other
/// layers, and passes the vector through its two halves; the first half attends to the
/// new position too.
pub proof fn law_layer(s: Stream, w: Weights, l: nat)
    requires
        l < s.keys.len(),
        l < s.values.len(),
    ensures
        ({
            let out = after_layer(s, w, l);
            let i = l as int;
            &&& out.keys.len() == s.keys.len()
            &&& out.values.len() == s.values.len()
            &&& out.keys[i].drop_last() == s.keys[i]
            &&& out.values[i].drop_last() == s.values[i]
            &&& out.keys[i].len() == s.keys[i].len() + 1
            &&& out.values[i].len() == s.values[i].len() + 1
            &&& out.keys[i].last() == projected(s.x, w, l, "attn_wk"@)
            &&& out.values[i].last() == projected(s.x, w, l, "attn_wv"@)
            &&& forall|k: int|
                0 <= k < s.keys.len() && k != l ==> #[trigger] out.keys[k] == s.keys[k]
            &&& forall|k: int|
                0 <= k < s.values.len() && k != l ==> #[trigger] out.values[k] == s.values[k]
            &&& out.x == perceived(attended(s.x, out.keys[i], out.values[i], w, l), w, l)
        }),
{
    let out = after_layer(s, w, l);
    let i = l as int;
    assert(out.keys[i].drop_last() =~= s.keys[i]);
    assert(out.values[i].drop_last() =~= s.values[i]);
}

/// The forward pass takes what the embeddings give through all layers, from the first to
/// the last, and applies the head to the outcome.
pub proof fn law_forward_pass(
    f: Functions,
    token_id: int,
    pos_id: int,
    keys: Seq<Seq<Seq<Expr>>>,
    values: Seq<Seq<Seq<Expr>>>,
    w: Weights,
    r: int,
)
    requires
        0 <= r < w["lm_head"@].len(),
    ensures
        ({
            let entry = Stream { x: embedded(token_id, pos_id, w), keys, values };
            let s = gpt_stream(token_id, pos_id, keys, values, w);
            let row = w["lm_head"@][r];
            &&& after_layers(entry, w, 0) == entry
            &&& forall|n: nat| #[trigger]
                after_layers(entry, w, n + 1) == after_layer(after_layers(entry, w, n), w, n)
            &&& s == after_layers(entry, w, N_LAYER as nat)
            &&& head_of(s, w).len() == w["lm_head"@].len()
            &&& row.len() == s.x.len() ==> worth(f, head_of(s, w)[r]) == sum(
                Seq::new(row.len(), |c: int| worth(f, row[c]) * worth(f, s.x[c])),
            )
        }),
{
    let s = gpt_stream(token_id, pos_id, keys, values, w);
    if w["lm_head"@][r].len() == s.x.len() {
        law_linear_layer(f, s.x, w["lm_head"@], r, s.x.len());
    }
}

/// The tokens of a document are passed over one by one, each at its position, with the
/// keys and values of those before it; no keys and values are there at the start. The
/// logits of every position are kept.
pub proof fn law_passes(tokens: Seq<usize>, w: Weights, n: nat)
    ensures
        passes(tokens, w, 0).logits.len() == 0,
        passes(tokens, w, 0).keys.len() == N_LAYER,
        passes(tokens, w, 0).values.len() == N_LAYER,
        forall|l: int| 0 <= l < N_LAYER ==> (#[trigger] passes(tokens, w, 0).keys[l]).len() == 0,
        forall|l: int| 0 <= l < N_LAYER ==> (#[trigger] passes(tokens, w, 0).values[l]).len() == 0,
        ({
            let before = passes(tokens, w, n);
            let after = passes(tokens, w, n + 1);
            let s = gpt_stream(tokens[n as int] as int, n as int, before.keys, before.values, w);
            &&& after.logits.len() == n + 1
            &&& after.logits.drop_last() == before.logits
            &&& after.logits[n as int] == head_of(s, w)
            &&& after.keys == s.keys
            &&& after.values == s.values
        }),
{
    lemma_logits_len(tokens, w, n);
    lemma_logits_len(tokens, w, n + 1);
    assert(passes(tokens, w, n + 1).logits.drop_last() =~= passes(tokens, w, n).logits);
}

/// The loss at a position is the negative logarithm of the probability that the softmax
/// of its logits gives to the token that follows.
pub proof fn law_loss_at_a_position(f: Functions, tokens: Seq<usize>, w: Weights, i: int)
    requires
        forall|x: real| #[trigger] (f.exp)(x) > 0real,
        forall|x: real, y: real| #[trigger] sum_to_product(f.exp, x, y),
        0 <= i,
        i + 1 < tokens.len(),
        tokens[i + 1] < w["lm_head"@].len(),
    ensures
        ({
            let logits = passes(tokens, w, (i + 1) as nat).logits[i];
            let total = sum(
                Seq::new(w["lm_head"@].len(), |k: int| (f.exp)(worth(f, logits[k]))),
            );
            &&& logits.len() == w["lm_head"@].len()
            &&& worth(f, loss_at(tokens, w, i)) == -(f.rest)(
                Op::Log,
                seq![(f.exp)(worth(f, logits[tokens[i + 1] as int])) / total],
            )
        }),
{
    let n = (i + 1) as nat;
    let logits = passes(tokens, w, n).logits[i];
    let target = tokens[i + 1] as int;
    lemma_logits_len(tokens, w, n);
    law_softmax(f, logits, target);
    let p = softmax_exprs(logits)[target];
    lemma_worth_single(f, p, 0);
    lemma_worth_single(f, logarithm(p), 0);
}

/// The loss of a document is the mean of the losses at its positions: of as many as
/// there are tokens after the first, but no more than the context holds.
pub proof fn law_loss_is_the_mean(f: Functions, tokens: Seq<usize>, w: Weights, n: nat)
    requires
        tokens.len() >= 2,
        n <= tokens.len() - 1,
        n <= BLOCK_SIZE,
        n == tokens.len() - 1 || n == BLOCK_SIZE,
    ensures
        ({
            let all = Seq::new(n, |i: int| worth(f, loss_at(tokens, w, i)));
            &&& worth(f, loss_expr(tokens, w)) * (n as int as real) == sum(all)
            &&& (forall|i: int| 0 <= i < n ==> #[trigger] all[i] == all[0]) ==> worth(
                f,
                loss_expr(tokens, w),
            ) == all[0]
        }),
{
    let all = Seq::new(n, |i: int| worth(f, loss_at(tokens, w, i)));
    let parts = losses(tokens, w, n);
    lemma_worth_total(f, parts, n);
    assert(worths(f, parts).take(n as int) =~= all);
    lemma_worth_constant(f, n as usize);
    lemma_worth_pair(f, constant(ONE), number(n as usize));
    lemma_worth_pair(f, total_expr(parts, n), quotient(constant(ONE), number(n as usize)));
    let s = sum(all);
    let c = n as int as real;
    let m = worth(f, loss_expr(tokens, w));
    assert(m == s * (1real / c));
    assert(s * (1real / c) * c == s) by (nonlinear_arith)
        requires
            c > 0real,
    ;
    if forall|i: int| 0 <= i < n ==> #[trigger] all[i] == all[0] {
        let x = all[0];
        lemma_sum_of_same(all, x);
        assert(m == x) by (nonlinear_arith)
            requires
                m * c == x * c,
                c > 0real,
        ;
    }
}

proof fn lemma_sum_of_same(xs: Seq<real>, x: real)
    requires
        forall|i: int| 0 <= i < xs.len() ==> #[trigger] xs[i] == x,
    ensures
        sum(xs) == x * (xs.len() as int as real),
    decreases xs.len(),
{
    let n = xs.len() as int as real;
    if xs.len() > 0 {
        let rest = xs.drop_last();
        assert forall|i: int| 0 <= i < rest.len() implies #[trigger] rest[i] == x by {
            assert(xs[i] == x);
        }
        lemma_sum_of_same(rest, x);
        assert(xs[xs.len() - 1] == x);
        assert(x * (n - 1real) + x == x * n) by (nonlinear_arith);
        assert((xs.len() - 1) as int as real == n - 1real);
    } else {
        assert(x * 0real == 0real) by (nonlinear_arith);
    }
}

/// The next token has, after any number of tokens, the probabilities of the softmax of
/// the logits at the last token, each divided by the temperature.
pub proof fn law_probabilities_of_the_next_token(
    f: Functions,
    tokens: Seq<usize>,
    w: Weights,
    i: int,
)
    requires
        forall|x: real| #[trigger] (f.exp)(x) > 0real,
        forall|x: real, y: real| #[trigger] sum_to_product(f.exp, x, y),
        tokens.len() > 0,
        worth(f, constant(TEMPERATURE)) != 0real,
        0 <= i < w["lm_head"@].len(),
    ensures
        ({
            let logits = passes(tokens, w, tokens.len()).logits[tokens.len() - 1];
            let t = worth(f, constant(TEMPERATURE));
            &&& logits.len() == w["lm_head"@].len()
            &&& next_probabilities(tokens, w).len() == w["lm_head"@].len()
            &&& worth(f, next_probabilities(tokens, w)[i]) == (f.exp)(worth(f, logits[i]) / t) / sum(
                Seq::new(w["lm_head"@].len(), |k: int| (f.exp)(worth(f, logits[k]) / t)),
            )
        }),
{
    let n = tokens.len();
    let logits = passes(tokens, w, n).logits[n - 1];
    let t = worth(f, constant(TEMPERATURE));
    let factor = quotient(constant(ONE), constant(TEMPERATURE));
    let soft = scaled_exprs(logits, factor);
    lemma_logits_len(tokens, w, n);
    lemma_worth_constant(f, 0);
    lemma_worth_pair(f, constant(ONE), constant(TEMPERATURE));
    law_softmax(f, soft, i);
    let a = Seq::new(soft.len(), |k: int| (f.exp)(worth(f, soft[k])));
    let b = Seq::new(w["lm_head"@].len(), |k: int| (f.exp)(worth(f, logits[k]) / t));
    assert forall|k: int| 0 <= k < a.len() implies #[trigger] a[k] == b[k] by {
        let x = worth(f, logits[k]);
        lemma_worth_pair(f, logits[k], factor);
        assert(x * (1real / t) == x / t) by (nonlinear_arith)
            requires
                t != 0real,
        ;
    }
    assert(a[i] == b[i]);
    lemma_sums(a, b);
}

/// What is subtracted from the logits of a softmax is the largest of them, so no exponent
/// is positive, whatever their number.
pub proof fn law_no_exponent_is_positive(f: Functions, logits: Seq<Expr>) -> (top: int)
    requires
        logits.len() > 0,
    ensures
        0 <= top < logits.len(),
        worth(f, largest(logits)) == worth(f, logits[top]),
        forall|i: int|
            0 <= i < logits.len() ==> worth(f, minus(#[trigger] logits[i], largest(logits)))
                <= 0real,
{
    let xs = worths(f, logits);
    assert(worths_of(logits, arithmetic(f)) =~= xs);
    let top = lemma_greatest(xs);
    assert forall|i: int| 0 <= i < logits.len() implies worth(
        f,
        minus(#[trigger] logits[i], largest(logits)),
    ) <= 0real by {
        lemma_worth_pair(f, logits[i], largest(logits));
        assert(xs[i] <= greatest(xs));
    }
    top
}

proof fn lemma_greatest(xs: Seq<real>) -> (top: int)
    requires
        xs.len() > 0,
    ensures
        0 <= top < xs.len(),
        greatest(xs) == xs[top],
        forall|i: int| 0 <= i < xs.len() ==> #[trigger] xs[i] <= greatest(xs),
    decreases xs.len(),
{
    if xs.len() == 1 {
        0
    } else {
        let before = xs.drop_last();
        let earlier = lemma_greatest(before);
        assert forall|i: int| 0 <= i < xs.len() implies #[trigger] xs[i] <= greatest(xs) by {
            if i < before.len() {
                assert(before[i] == xs[i]);
            }
        }
        if greatest(before) >= xs.last() {
            assert(before[earlier] == xs[earlier]);
            earlier
        } else {
            xs.len() - 1
        }
    }
}

} // verus!
