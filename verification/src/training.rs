//! What training makes of the parameters, where the arithmetic is exact.

use vstd::prelude::*;

use crate::autograd::{post_order, sweep};
use crate::chain_rule::{
    evaluates, expr_derivative, law_gradient_follows_the_expression, run, seed, slopes,
};
use crate::exact::{exact, Functions};
use crate::gpt::{weights_of, Weights};
use crate::optimizer::{first_moment, second_moment, updated};
use crate::params::Model;
use crate::tape::{leaf, lemma_expr_at, lemma_exprs_len, node_wf, worth_of, Expr, Op};
use crate::train::{cut, law_cut_document_has_the_same_loss, loss_expr, tokens_for, TrainStep};

verus! {

/// The parameters and the moments of their gradients.
pub struct Training {
    pub data: Seq<real>,
    pub first: Seq<real>,
    pub second: Seq<real>,
}

/// What operations compute where the parameters have the given values.
pub open spec fn with_values(f: Functions, values: Seq<real>) -> spec_fn(Op, Seq<real>) -> real {
    |op: Op, args: Seq<real>|
        match op {
            Op::Param(p) => values[p as int],
            _ => exact(f, op, args),
        }
}

/// What training goes by: the functions beyond sums and products, and the slopes of
/// powers.
pub struct Rules {
    pub f: Functions,
    pub power: spec_fn(real, u64) -> real,
}

/// What an expression is worth on a parameter, its gradient and its moments.
pub open spec fn on_parameter(r: Rules, e: Expr, x: real, g: real, m: real, v: real) -> real {
    worth_of(e, with_values(r.f, seq![x, g, m, v]))
}

/// What a step makes of the parameters: each follows its gradient of the loss, as the
/// optimizer says.
pub open spec fn stepped(r: Rules, t: Training, loss: Expr, step: usize) -> Training {
    let x = leaf(Op::Param(0));
    let g = leaf(Op::Param(1));
    let m = first_moment(leaf(Op::Param(2)), g);
    let v = second_moment(leaf(Op::Param(3)), g);
    let grads = Seq::new(
        t.data.len(),
        |i: int| expr_derivative(loss, i as usize, with_values(r.f, t.data), r.power),
    );
    let all = |e: Expr|
        Seq::new(
            t.data.len(),
            |i: int| on_parameter(r, e, t.data[i], grads[i], t.first[i], t.second[i]),
        );
    Training { data: all(updated(x, m, v, step)), first: all(m), second: all(v) }
}

/// The steps that a training step hands out leave, at every parameter, the derivative
/// of the loss on its tokens.
pub proof fn law_training_follows_the_loss(
    before: Model,
    after: Model,
    made: TrainStep,
    tokens: Seq<usize>,
    r: Rules,
    data: Seq<real>,
    values: Seq<real>,
    p: usize,
)
    requires
        ({
            let w = weights_of(before.tape@, before.params@);
            before.tape.gains(after.tape, made.loss, loss_expr(tokens, w))
        }),
        made.steps@ == sweep(after.tape.nodes@, post_order(after.tape.nodes@, made.loss)),
        evaluates(after.tape, with_values(r.f, data), values),
        p < before.tape@.len(),
        before.tape@[p as int] == leaf(Op::Param(p)),
    ensures
        run(made.steps@, slopes(values, r.power), seed(after.tape@.len(), made.loss))[p as int]
            == expr_derivative(
            loss_expr(tokens, weights_of(before.tape@, before.params@)),
            p,
            with_values(r.f, data),
            r.power,
        ),
{
    let tape = after.tape;
    lemma_exprs_len(tape.nodes@);
    assert(node_wf(tape.nodes@[p as int], p as int));
    lemma_expr_at(tape.nodes@, p as int);
    assert(tape@[p as int] == before.tape@[p as int]);
    law_gradient_follows_the_expression(
        tape,
        with_values(r.f, data),
        r.power,
        values,
        made.loss,
        p,
    );
}

/// The documents and their tokens.
pub struct Lessons {
    pub docs: Seq<Seq<char>>,
    pub uchars: Seq<char>,
    pub bos: usize,
}

/// The parameters after the first `n` steps; the moments start from zero.
pub open spec fn trained(r: Rules, w: Weights, l: Lessons, start: Seq<real>, n: nat) -> Training
    decreases n,
{
    if n == 0 {
        let zeros = Seq::new(start.len(), |i: int| 0real);
        Training { data: start, first: zeros, second: zeros }
    } else {
        let k = (n - 1) as nat;
        stepped(
            r,
            trained(r, w, l, start, k),
            loss_expr(tokens_for(l.uchars, l.bos, l.docs, k), w),
            k as usize,
        )
    }
}

/// The documents, each cut to as many characters as the context holds.
pub open spec fn all_cut(docs: Seq<Seq<char>>) -> Seq<Seq<char>> {
    Seq::new(docs.len(), |i: int| cut(docs[i]))
}

/// Characters past the context are never learned from: documents that are cut there
/// lead to the same parameters, after any number of steps.
pub proof fn law_cut_documents_train_alike(
    r: Rules,
    w: Weights,
    l: Lessons,
    start: Seq<real>,
    n: nat,
)
    requires
        l.docs.len() > 0,
    ensures
        trained(r, w, Lessons { docs: all_cut(l.docs), ..l }, start, n) == trained(
            r,
            w,
            l,
            start,
            n,
        ),
    decreases n,
{
    if n > 0 {
        let k = (n - 1) as nat;
        law_cut_documents_train_alike(r, w, l, start, k);
        let i = (k % l.docs.len()) as int;
        law_cut_document_has_the_same_loss(l.uchars, l.bos, l.docs[i], w);
    }
}

} // verus!
