//! What a model writes depends on nothing but its numbers and the random draws, so a
//! model that was saved and loaded again writes the same.

use vstd::prelude::*;

use crate::agreement::{
    agree, law_same_numbers_same_probabilities, lemma_worth_of_args, rows_for, same, same_all, same_rows, same_weights,
    weights_ready, weights_ready_at,
};
use crate::checkpoint::{load_layout, loadable, parsed, saved, shape_of, sources_of, Parsed};
use crate::config::{BLOCK_SIZE, N_LAYER};
use crate::exact::{
    arithmetic, lemma_worth_pair, lemma_worth_total, sum, worth, worths, Functions,
};
use crate::gpt::{dict_below, layer_ready, weights_of, Weights};
use crate::layers::total_expr;
use crate::params::{init_layout, init_size, laid_out, parameters, size_of, Dict};
use crate::ready::{
    law_new_model_can_be_saved, law_new_model_is_usable, lemma_laid_out_below, usable,
};
use crate::round_trip::{
    given_back, has_shape, law_save_then_load, solid_words, well_shaped, writable,
};
use crate::sampler::{accepted, first_used_up, left_over, left_overs, next_probabilities};
use crate::tape::{
    below, constant, leaf, negated, pick_rows, rows_below, worth_of, worths_of, Expr, Op, ZERO,
};
use crate::train::lemma_logits_len;

verus! {

/// The sum of the first `n` weights.
pub open spec fn weight_sum<T>(a: spec_fn(Op, Seq<T>) -> T, ws: Seq<T>, n: nat) -> T
    decreases n,
{
    if n == 0 {
        a(Op::Const(ZERO), Seq::empty())
    } else {
        a(Op::Add, seq![weight_sum(a, ws, (n - 1) as nat), ws[n - 1]])
    }
}

/// What is left of a share of all weights once the first `n` of them are taken from it.
pub open spec fn share_left<T>(a: spec_fn(Op, Seq<T>) -> T, draw: T, ws: Seq<T>, n: nat) -> T
    decreases n,
{
    if n == 0 {
        a(Op::Mul, seq![draw, weight_sum(a, ws, ws.len())])
    } else {
        a(
            Op::Add,
            seq![share_left(a, draw, ws, (n - 1) as nat), a(Op::Neg, seq![ws[n - 1]])],
        )
    }
}

pub proof fn lemma_weight_sum<T>(a: spec_fn(Op, Seq<T>) -> T, ws: Seq<Expr>, n: nat)
    requires
        n <= ws.len(),
    ensures
        worth_of(total_expr(ws, n), a) == weight_sum(a, worths_of(ws, a), n),
    decreases n,
{
    if n == 0 {
        let zero = constant(ZERO);
        lemma_worth_of_args(Op::Const(ZERO), zero, zero, a);
    } else {
        let m = (n - 1) as nat;
        lemma_weight_sum(a, ws, m);
        lemma_worth_of_args(Op::Add, total_expr(ws, m), ws[n - 1], a);
    }
}

/// The remainders that are put on the tape are worth what is left of the share.
pub proof fn law_remainders_are_what_is_left<T>(
    a: spec_fn(Op, Seq<T>) -> T,
    draw: Expr,
    ws: Seq<Expr>,
    n: nat,
)
    requires
        n <= ws.len(),
    ensures
        worth_of(left_over(draw, ws, n), a) == share_left(
            a,
            worth_of(draw, a),
            worths_of(ws, a),
            n,
        ),
    decreases n,
{
    if n == 0 {
        lemma_weight_sum(a, ws, ws.len());
        lemma_worth_of_args(Op::Mul, draw, total_expr(ws, ws.len()), a);
    } else {
        let m = (n - 1) as nat;
        law_remainders_are_what_is_left(a, draw, ws, m);
        lemma_worth_of_args(Op::Neg, ws[n - 1], ws[n - 1], a);
        lemma_worth_of_args(Op::Add, left_over(draw, ws, m), negated(ws[n - 1]), a);
    }
}

/// The token that a draw chooses by its weights; `gone` says when nothing is left.
pub open spec fn chosen<T>(
    a: spec_fn(Op, Seq<T>) -> T,
    gone: spec_fn(T) -> bool,
    draw: T,
    ws: Seq<T>,
) -> usize {
    first_used_up(
        Seq::new(ws.len(), |i: int| gone(share_left(a, draw, ws, (i + 1) as nat))),
    ) as usize
}

/// The tokens that some draws lead to, and whether the document is then complete.
pub open spec fn written<T>(
    a: spec_fn(Op, Seq<T>) -> T,
    gone: spec_fn(T) -> bool,
    w: Weights,
    bos: usize,
    draws: Seq<T>,
) -> (Seq<usize>, bool)
    decreases draws.len(),
{
    if draws.len() == 0 {
        (seq![bos], false)
    } else {
        let (tokens, finished) = written(a, gone, w, bos, draws.drop_last());
        if finished {
            (tokens, finished)
        } else {
            let probs = worths_of(next_probabilities(tokens, w), a);
            accepted(tokens, bos, chosen(a, gone, draws.last(), probs))
        }
    }
}

proof fn lemma_same_share<T>(
    a: spec_fn(Op, Seq<T>) -> T,
    b: spec_fn(Op, Seq<T>) -> T,
    draw: T,
    ws: Seq<T>,
    n: nat,
)
    requires
        agree(a, b),
    ensures
        weight_sum(a, ws, n) == weight_sum(b, ws, n),
        share_left(a, draw, ws, n) == share_left(b, draw, ws, n),
    decreases n, 0nat,
{
    if n == 0 {
        lemma_same_sums(a, b, ws, ws.len());
        assert(a(Op::Const(ZERO), Seq::empty()) == b(Op::Const(ZERO), Seq::empty()));
        let args = seq![draw, weight_sum(a, ws, ws.len())];
        assert(a(Op::Mul, args) == b(Op::Mul, args));
    } else {
        let m = (n - 1) as nat;
        lemma_same_share(a, b, draw, ws, m);
        lemma_same_sums(a, b, ws, n);
        let opposite = seq![ws[n - 1]];
        assert(a(Op::Neg, opposite) == b(Op::Neg, opposite));
        let args = seq![share_left(a, draw, ws, m), a(Op::Neg, opposite)];
        assert(a(Op::Add, args) == b(Op::Add, args));
    }
}

proof fn lemma_same_sums<T>(
    a: spec_fn(Op, Seq<T>) -> T,
    b: spec_fn(Op, Seq<T>) -> T,
    ws: Seq<T>,
    n: nat,
)
    requires
        agree(a, b),
    ensures
        weight_sum(a, ws, n) == weight_sum(b, ws, n),
    decreases n,
{
    if n == 0 {
        assert(a(Op::Const(ZERO), Seq::empty()) == b(Op::Const(ZERO), Seq::empty()));
    } else {
        let m = (n - 1) as nat;
        lemma_same_sums(a, b, ws, m);
        let args = seq![weight_sum(a, ws, m), ws[n - 1]];
        assert(a(Op::Add, args) == b(Op::Add, args));
    }
}

proof fn lemma_first_used_up_bound(used_up: Seq<bool>)
    ensures
        used_up.len() > 0 ==> first_used_up(used_up) < used_up.len(),
    decreases used_up.len(),
{
    if used_up.len() > 1 && !used_up[0] {
        lemma_first_used_up_bound(used_up.drop_first());
    }
}

/// What is used up sooner is chosen no later.
proof fn lemma_sooner_used_up(a: Seq<bool>, b: Seq<bool>)
    requires
        a.len() == b.len(),
        forall|i: int| 0 <= i < a.len() && #[trigger] b[i] ==> a[i],
    ensures
        first_used_up(a) <= first_used_up(b),
    decreases a.len(),
{
    if a.len() > 1 && !a[0] {
        let (s, t) = (a.drop_first(), b.drop_first());
        assert(!b[0]);
        assert forall|i: int| 0 <= i < s.len() && #[trigger] t[i] implies s[i] by {
            assert(b[i + 1]);
        }
        lemma_sooner_used_up(s, t);
    }
}

/// Whether taking away a weight keeps the order of two amounts.
pub open spec fn keeps_order<T>(
    a: spec_fn(Op, Seq<T>) -> T,
    le: spec_fn(T, T) -> bool,
    w: T,
    x: T,
    y: T,
) -> bool {
    le(x, y) ==> le(a(Op::Add, seq![x, a(Op::Neg, seq![w])]), a(Op::Add, seq![y, a(Op::Neg, seq![w])]))
}

proof fn lemma_share_rises<T>(
    a: spec_fn(Op, Seq<T>) -> T,
    le: spec_fn(T, T) -> bool,
    u1: T,
    u2: T,
    ws: Seq<T>,
    n: nat,
)
    requires
        n <= ws.len(),
        le(share_left(a, u1, ws, 0), share_left(a, u2, ws, 0)),
        forall|i: int, x: T, y: T|
            0 <= i < ws.len() ==> #[trigger] keeps_order(a, le, ws[i], x, y),
    ensures
        le(share_left(a, u1, ws, n), share_left(a, u2, ws, n)),
    decreases n,
{
    if n > 0 {
        let m = (n - 1) as nat;
        lemma_share_rises(a, le, u1, u2, ws, m);
        assert(keeps_order(a, le, ws[n - 1], share_left(a, u1, ws, m), share_left(a, u2, ws, m)));
    }
}

/// The choice rises with the draw, in every arithmetic that keeps the order of amounts,
/// rounded or not: where the share of the first draw is no larger, the first choice is
/// no later. Asked of the order is that the same weight can be taken from both sides,
/// and that nothing is left of what is no larger than an amount of which nothing is left.
pub proof fn law_choice_rises_with_the_draw<T>(
    a: spec_fn(Op, Seq<T>) -> T,
    le: spec_fn(T, T) -> bool,
    gone: spec_fn(T) -> bool,
    u1: T,
    u2: T,
    ws: Seq<T>,
)
    requires
        0 < ws.len() <= usize::MAX,
        le(share_left(a, u1, ws, 0), share_left(a, u2, ws, 0)),
        forall|i: int, x: T, y: T|
            0 <= i < ws.len() ==> #[trigger] keeps_order(a, le, ws[i], x, y),
        forall|x: T, y: T| #[trigger] le(x, y) && gone(y) ==> gone(x),
    ensures
        chosen(a, gone, u1, ws) <= chosen(a, gone, u2, ws),
{
    let p = Seq::new(ws.len(), |i: int| gone(share_left(a, u1, ws, (i + 1) as nat)));
    let q = Seq::new(ws.len(), |i: int| gone(share_left(a, u2, ws, (i + 1) as nat)));
    assert forall|i: int| 0 <= i < p.len() && #[trigger] q[i] implies p[i] by {
        lemma_share_rises(a, le, u1, u2, ws, (i + 1) as nat);
    }
    lemma_sooner_used_up(p, q);
    lemma_first_used_up_bound(p);
    lemma_first_used_up_bound(q);
}

/// A share that is used up by the first weight chooses the first position, in every
/// arithmetic.
pub proof fn law_used_up_share_chooses_the_first<T>(
    a: spec_fn(Op, Seq<T>) -> T,
    gone: spec_fn(T) -> bool,
    u: T,
    ws: Seq<T>,
)
    requires
        ws.len() > 0,
        gone(share_left(a, u, ws, 1)),
    ensures
        chosen(a, gone, u, ws) == 0,
{
    let p = Seq::new(ws.len(), |i: int| gone(share_left(a, u, ws, (i + 1) as nat)));
    assert(p[0]);
}

/// Whether nothing is left of an amount.
pub open spec fn nothing_left() -> spec_fn(real) -> bool {
    |x: real| x <= 0real
}

/// The sum of weights that are not negative is not negative.
proof fn lemma_weight_sum_positive(f: Functions, ws: Seq<real>, n: nat)
    requires
        n <= ws.len(),
        forall|i: int| 0 <= i < ws.len() ==> #[trigger] ws[i] >= 0real,
    ensures
        weight_sum(arithmetic(f), ws, n) >= 0real,
    decreases n,
{
    if n > 0 {
        lemma_weight_sum_positive(f, ws, (n - 1) as nat);
        assert(ws[n - 1] >= 0real);
    }
}

/// What is left of a share, where the arithmetic is exact: the draw times the sum of all
/// weights, less the sum of the weights that were taken.
pub proof fn law_what_is_left(f: Functions, draw: Expr, weights: Seq<Expr>, n: nat)
    requires
        n <= weights.len(),
    ensures
        left_overs(draw, weights).len() == weights.len(),
        n > 0 ==> left_overs(draw, weights)[n - 1] == left_over(draw, weights, n),
        worth(f, left_over(draw, weights, n)) == worth(f, draw) * sum(worths(f, weights)) - sum(
            worths(f, weights).take(n as int),
        ),
    decreases n,
{
    let ws = worths(f, weights);
    if n == 0 {
        lemma_worth_total(f, weights, weights.len());
        assert(ws.take(weights.len() as int) =~= ws);
        lemma_worth_pair(f, draw, total_expr(weights, weights.len()));
        assert(ws.take(0) =~= Seq::<real>::empty());
    } else {
        let m = (n - 1) as nat;
        law_what_is_left(f, draw, weights, m);
        lemma_worth_pair(f, left_over(draw, weights, m), weights[n - 1]);
        assert(ws.take(n as int).drop_last() =~= ws.take(m as int));
    }
}

/// The position that a draw chooses is the first up to which the weights add up to the
/// draw's share of them all, or the last where none is.
pub proof fn law_choice_goes_by_cumulated_weights(
    f: Functions,
    draw: Expr,
    weights: Seq<Expr>,
    used_up: Seq<bool>,
)
    requires
        weights.len() > 0,
        used_up.len() == weights.len(),
        forall|i: int|
            0 <= i < used_up.len() ==> #[trigger] used_up[i] == (worth(
                f,
                left_overs(draw, weights)[i],
            ) <= 0real),
    ensures
        ({
            let ws = worths(f, weights);
            let share = worth(f, draw) * sum(ws);
            let c = first_used_up(used_up) as int;
            &&& 0 <= c < weights.len()
            &&& forall|i: int| 0 <= i < c ==> sum(#[trigger] ws.take(i + 1)) < share
            &&& sum(ws.take(c + 1)) >= share || c == weights.len() - 1
        }),
{
    let ws = worths(f, weights);
    let c = first_used_up(used_up) as int;
    lemma_first_used_up_bound(used_up);
    lemma_first_used_up_meaning(used_up);
    assert forall|i: int| 0 <= i < weights.len() implies used_up[i] == (worth(f, draw) * sum(ws)
        - sum(#[trigger] ws.take(i + 1)) <= 0real) by {
        law_what_is_left(f, draw, weights, (i + 1) as nat);
    }
    assert forall|i: int| 0 <= i < c implies sum(#[trigger] ws.take(i + 1)) < worth(f, draw) * sum(
        ws,
    ) by {
        assert(!used_up[i]);
    }
    assert(ws.take(c + 1) == ws.take(c + 1));
}

proof fn lemma_first_used_up_meaning(used_up: Seq<bool>)
    requires
        used_up.len() > 0,
    ensures
        forall|i: int| 0 <= i < first_used_up(used_up) ==> !(#[trigger] used_up[i]),
        used_up[first_used_up(used_up) as int] || first_used_up(used_up) == used_up.len() - 1,
    decreases used_up.len(),
{
    if used_up.len() > 1 && !used_up[0] {
        let rest = used_up.drop_first();
        lemma_first_used_up_meaning(rest);
        lemma_first_used_up_bound(rest);
        assert forall|i: int| 0 <= i < first_used_up(used_up) implies !(#[trigger] used_up[i]) by {
            if i > 0 {
                assert(!rest[i - 1]);
            }
        }
    }
}

/// Where the arithmetic is exact and no weight is negative, a smaller draw chooses a
/// position that is no later, and a draw of zero chooses the first.
pub proof fn law_smaller_draw_chooses_no_later(f: Functions, u1: real, u2: real, ws: Seq<real>)
    requires
        0 < ws.len() <= usize::MAX,
        u1 <= u2,
        forall|i: int| 0 <= i < ws.len() ==> #[trigger] ws[i] >= 0real,
    ensures
        chosen(arithmetic(f), nothing_left(), u1, ws) <= chosen(
            arithmetic(f),
            nothing_left(),
            u2,
            ws,
        ),
        chosen(arithmetic(f), nothing_left(), 0real, ws) == 0,
{
    let a = arithmetic(f);
    let le = |x: real, y: real| x <= y;
    let total = weight_sum(a, ws, ws.len());
    lemma_weight_sum_positive(f, ws, ws.len());
    assert(share_left(a, u1, ws, 0) == u1 * total);
    assert(share_left(a, u2, ws, 0) == u2 * total);
    assert(share_left(a, 0real, ws, 0) == 0real * total);
    assert(u1 * total <= u2 * total && 0real * total == 0real) by (nonlinear_arith)
        requires
            u1 <= u2,
            total >= 0real,
    ;
    assert forall|i: int, x: real, y: real| 0 <= i < ws.len() implies #[trigger] keeps_order(
        a,
        le,
        ws[i],
        x,
        y,
    ) by {}
    law_choice_rises_with_the_draw(a, le, nothing_left(), u1, u2, ws);
    assert(ws[0] >= 0real);
    assert(share_left(a, 0real, ws, 1) == share_left(a, 0real, ws, 0) + -ws[0]);
    law_used_up_share_chooses_the_first(a, nothing_left(), 0real, ws);
}

/// Whether a model has rows for a whole document over the tokens up to the end mark.
pub open spec fn serves(w: Weights, bos: usize) -> bool {
    &&& weights_ready(w)
    &&& w["wte"@].len() == bos + 1
    &&& w["wpe"@].len() >= BLOCK_SIZE
    &&& w["lm_head"@].len() == bos + 1
}

/// Models that hold the same numbers write the same documents from the same draws.
pub proof fn law_same_numbers_same_documents<T>(
    a: spec_fn(Op, Seq<T>) -> T,
    w: Weights,
    b: spec_fn(Op, Seq<T>) -> T,
    v: Weights,
    gone: spec_fn(T) -> bool,
    bos: usize,
    draws: Seq<T>,
)
    requires
        agree(a, b),
        same_weights(w, a, v, b),
        serves(w, bos),
    ensures
        written(a, gone, w, bos, draws) == written(b, gone, v, bos, draws),
        ({
            let (tokens, finished) = written(a, gone, w, bos, draws);
            &&& 1 <= tokens.len()
            &&& !finished ==> tokens.len() <= BLOCK_SIZE
            &&& forall|i: int| 0 <= i < tokens.len() ==> (#[trigger] tokens[i]) <= bos
        }),
    decreases draws.len(),
{
    if draws.len() > 0 {
        law_same_numbers_same_documents(a, w, b, v, gone, bos, draws.drop_last());
        let (tokens, finished) = written(a, gone, w, bos, draws.drop_last());
        if !finished {
            let n = tokens.len();
            law_same_numbers_same_probabilities(tokens, w, a, v, b);
            let probs = worths_of(next_probabilities(tokens, w), a);
            lemma_logits_len(tokens, w, n);
            assert(probs.len() == bos + 1);
            let draw = draws.last();
            let p = Seq::new(
                probs.len(),
                |i: int| gone(share_left(a, draw, probs, (i + 1) as nat)),
            );
            let q = Seq::new(
                probs.len(),
                |i: int| gone(share_left(b, draw, probs, (i + 1) as nat)),
            );
            assert forall|i: int| 0 <= i < probs.len() implies p[i] == q[i] by {
                lemma_same_share(a, b, draw, probs, (i + 1) as nat);
            }
            assert(p =~= q);
            lemma_first_used_up_bound(p);
            assert(chosen(a, gone, draw, probs) == chosen(b, gone, draw, probs));
        }
    }
}

/// An arithmetic in which the parameters have the given values.
pub open spec fn with_parameters_at<T>(
    rest: spec_fn(Op, Seq<T>) -> T,
    values: spec_fn(usize) -> T,
) -> spec_fn(Op, Seq<T>) -> T {
    |op: Op, args: Seq<T>|
        match op {
            Op::Param(p) => values(p),
            _ => rest(op, args),
        }
}

/// What the texts of the parameters read as.
pub open spec fn texts_read<T>(
    read: spec_fn(Seq<char>) -> T,
    rendered: Seq<Seq<char>>,
) -> spec_fn(usize) -> T {
    |p: usize| read(rendered[p as int])
}

/// What the words that the parameters are loaded from read as.
pub open spec fn words_read<T>(
    read: spec_fn(Seq<char>) -> T,
    ls: Seq<Parsed>,
    sources: Seq<(usize, usize)>,
) -> spec_fn(usize) -> T {
    |p: usize| read(ls[sources[p as int].0 as int].words[sources[p as int].1 as int])
}

/// What parameters that are laid out stand for.
proof fn lemma_parameter_rows(d: Dict, n: nat, name: Seq<char>, r: int, c: int)
    requires
        dict_below(d, n),
        d.contains_key(name),
        0 <= r < d[name].len(),
        0 <= c < d[name][r].len(),
    ensures
        weights_of(parameters(n), d)[name].len() == d[name].len(),
        weights_of(parameters(n), d)[name][r].len() == d[name][r].len(),
        weights_of(parameters(n), d)[name][r][c] == leaf(Op::Param(d[name][r][c])),
{
    assert(rows_below(d[name], n));
    assert(below(d[name][r], n));
    assert(d[name][r][c] < n);
}

proof fn lemma_worth_of_parameter<T>(
    rest: spec_fn(Op, Seq<T>) -> T,
    values: spec_fn(usize) -> T,
    p: usize,
)
    ensures
        worth_of(leaf(Op::Param(p)), with_parameters_at(rest, values)) == values(p),
{
}

/// A model that was saved and loaded again holds the same numbers: those that the
/// written texts read as.
pub proof fn law_reloaded_numbers_are_the_same<T>(
    d: Dict,
    rendered: Seq<Seq<char>>,
    vocab_size: nat,
    read: spec_fn(Seq<char>) -> T,
    rest: spec_fn(Op, Seq<T>) -> T,
)
    requires
        d.dom().finite(),
        writable(d, rendered),
        well_shaped(d, vocab_size),
        loadable(parsed(saved(d, rendered)), vocab_size),
        parsed(saved(d, rendered)).len() <= usize::MAX,
    ensures
        ({
            let ls = parsed(saved(d, rendered));
            let layout = load_layout(ls, vocab_size);
            same_weights(
                weights_of(parameters(rendered.len()), d),
                with_parameters_at(rest, texts_read(read, rendered)),
                weights_of(parameters(size_of(layout)), laid_out(layout)),
                with_parameters_at(rest, words_read(read, ls, sources_of(layout))),
            )
        }),
{
    let ls = parsed(saved(d, rendered));
    let layout = load_layout(ls, vocab_size);
    let loaded = laid_out(layout);
    let sources = sources_of(layout);
    let n = rendered.len();
    let m = size_of(layout);
    let w = weights_of(parameters(n), d);
    let v = weights_of(parameters(m), loaded);
    let a = with_parameters_at(rest, texts_read(read, rendered));
    let b = with_parameters_at(rest, words_read(read, ls, sources));
    law_save_then_load(d, rendered, vocab_size);
    lemma_laid_out_below(layout);
    assert forall|name: Seq<char>| #[trigger] w.contains_key(name) implies same_rows(
        w[name],
        a,
        v[name],
        b,
    ) by {
        assert(d.contains_key(name));
        assert(d.dom().contains(name));
        assert(loaded.contains_key(name));
        let (nrows, ncols) = shape_of(name, vocab_size);
        assert(has_shape(d[name], nrows, ncols));
        assert(has_shape(loaded[name], nrows, ncols));
        assert(w[name] =~= pick_rows(parameters(n), d[name]));
        assert(v[name] =~= pick_rows(parameters(m), loaded[name]));
        assert forall|r: int| 0 <= r < w[name].len() implies same_all(
            #[trigger] w[name][r],
            a,
            #[trigger] v[name][r],
            b,
        ) by {
            assert(d[name][r].len() == ncols);
            assert(loaded[name][r].len() == ncols);
            assert forall|c: int| 0 <= c < w[name][r].len() implies same(
                #[trigger] w[name][r][c],
                a,
                #[trigger] v[name][r][c],
                b,
            ) by {
                let p = d[name][r][c];
                let q = loaded[name][r][c];
                lemma_parameter_rows(d, n, name, r, c);
                lemma_parameter_rows(loaded, m, name, r, c);
                lemma_worth_of_parameter(rest, texts_read(read, rendered), p);
                lemma_worth_of_parameter(rest, words_read(read, ls, sources), q);
                assert(given_back(d, rendered, vocab_size));
            }
        }
    }
}

/// A model that can be used has weights for whole documents.
proof fn lemma_usable_serves(d: Dict, bos: usize, n: nat)
    requires
        usable(d, (bos + 1) as nat),
    ensures
        serves(weights_of(parameters(n), d), bos),
{
    let w = weights_of(parameters(n), d);
    assert forall|l: nat| l < N_LAYER implies #[trigger] weights_ready_at(w, l) by {
        assert(layer_ready(d, l));
    }
}

/// A new model, and what training makes of it, writes the same documents after it was
/// saved and loaded again, from the same draws and in any arithmetic: its parameters
/// have the values that their texts read as, before and after.
pub proof fn law_reloaded_model_writes_the_same<T>(
    bos: usize,
    rendered: Seq<Seq<char>>,
    read: spec_fn(Seq<char>) -> T,
    rest: spec_fn(Op, Seq<T>) -> T,
    gone: spec_fn(T) -> bool,
    tokens: Seq<usize>,
    draws: Seq<T>,
)
    requires
        init_size((bos + 1) as nat) <= usize::MAX,
        rendered.len() == init_size((bos + 1) as nat),
        solid_words(rendered),
        1 <= tokens.len() <= BLOCK_SIZE,
        forall|i: int| 0 <= i < tokens.len() ==> (#[trigger] tokens[i]) <= bos,
    ensures
        ({
            let vocab_size = (bos + 1) as nat;
            let d = laid_out(init_layout(vocab_size));
            let ls = parsed(saved(d, rendered));
            let layout = load_layout(ls, vocab_size);
            let w = weights_of(parameters(rendered.len()), d);
            let a = with_parameters_at(rest, texts_read(read, rendered));
            let v = weights_of(parameters(size_of(layout)), laid_out(layout));
            let b = with_parameters_at(rest, words_read(read, ls, sources_of(layout)));
            &&& worths_of(next_probabilities(tokens, w), a) == worths_of(
                next_probabilities(tokens, v),
                b,
            )
            &&& written(a, gone, w, bos, draws) == written(b, gone, v, bos, draws)
        }),
{
    let vocab_size = (bos + 1) as nat;
    let d = laid_out(init_layout(vocab_size));
    let ls = parsed(saved(d, rendered));
    let layout = load_layout(ls, vocab_size);
    let w = weights_of(parameters(rendered.len()), d);
    let a = with_parameters_at(rest, texts_read(read, rendered));
    let v = weights_of(parameters(size_of(layout)), laid_out(layout));
    let b = with_parameters_at(rest, words_read(read, ls, sources_of(layout)));
    law_new_model_is_usable(vocab_size);
    law_new_model_can_be_saved(vocab_size, rendered);
    law_reloaded_numbers_are_the_same(d, rendered, vocab_size, read, rest);
    lemma_usable_serves(d, bos, rendered.len());
    assert(agree(a, b));
    assert(rows_for(w, tokens, tokens.len()));
    law_same_numbers_same_probabilities(tokens, w, a, v, b);
    law_same_numbers_same_documents(a, w, b, v, gone, bos, draws);
}

} // verus!
