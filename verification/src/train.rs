//! Training: which document a step learns from, the loss on it, and the sweep
//! that differentiates the loss.

use vstd::prelude::*;

use crate::autograd::{post_order, sweep, GradStep};
use crate::config::{BLOCK_SIZE, NUM_STEPS, N_LAYER};
use crate::gpt::{
    cache_wf, dict_below, gpt, gpt_stream, head_of, lemma_layers_prefix, lemma_weights_prefix,
    model_ready, pick_layers, weights_of, Weights,
};
use crate::layers::{softmax, softmax_exprs, tape_grows_to_itself, total, total_expr};
use crate::params::{Dict, Model, StateDict};
use crate::tape::{
    below, constant, lemma_pick_prefix, logarithm, negated, number, pick, quotient, times, Expr,
    Matrix, Tape, ONE,
};
use crate::text::views;
use crate::tokenizer::{covered, encoded, Tokenizer};

verus! {

/// What the model makes of some tokens: the logits at every position, and the
/// keys and values of every layer.
pub struct Passes {
    pub logits: Seq<Seq<Expr>>,
    pub keys: Seq<Seq<Seq<Expr>>>,
    pub values: Seq<Seq<Seq<Expr>>>,
}

/// No keys, or no values, in any layer.
pub open spec fn no_rows() -> Seq<Seq<Seq<Expr>>> {
    Seq::new(N_LAYER as nat, |l: int| Seq::<Seq<Expr>>::empty())
}

/// The forward passes over the first `n` tokens, one position after the other.
pub open spec fn passes(tokens: Seq<usize>, w: Weights, n: nat) -> Passes
    decreases n,
{
    if n == 0 {
        Passes { logits: Seq::empty(), keys: no_rows(), values: no_rows() }
    } else {
        let before = passes(tokens, w, (n - 1) as nat);
        let s = gpt_stream(tokens[n - 1] as int, n - 1, before.keys, before.values, w);
        Passes { logits: before.logits.push(head_of(s, w)), keys: s.keys, values: s.values }
    }
}

/// How many positions of a document with `n` tokens are learned from.
pub open spec fn context(n: nat) -> nat {
    if n - 1 <= BLOCK_SIZE {
        (n - 1) as nat
    } else {
        BLOCK_SIZE as nat
    }
}

/// The loss at position `i`: the negative logarithm of the probability that was
/// given to the token that follows.
pub open spec fn loss_at(tokens: Seq<usize>, w: Weights, i: int) -> Expr {
    negated(
        logarithm(
            softmax_exprs(passes(tokens, w, (i + 1) as nat).logits[i])[tokens[i + 1] as int],
        ),
    )
}

/// The losses at the first `n` positions.
pub open spec fn losses(tokens: Seq<usize>, w: Weights, n: nat) -> Seq<Expr> {
    Seq::new(n, |i: int| loss_at(tokens, w, i))
}

/// The mean of the losses at all positions that are learned from.
pub open spec fn loss_expr(tokens: Seq<usize>, w: Weights) -> Expr {
    let n = context(tokens.len());
    times(total_expr(losses(tokens, w, n), n), quotient(constant(ONE), number(n as usize)))
}

/// Whether a model can be trained on some tokens: it has all its matrices, and
/// rows for the tokens and the positions.
pub open spec fn trainable(d: Dict, tokens: Seq<usize>) -> bool {
    &&& model_ready(d)
    &&& tokens.len() > 0
    &&& context(tokens.len()) <= d["wpe"@].len()
    &&& forall|i: int|
        0 <= i < context(tokens.len()) ==> (#[trigger] tokens[i]) < d["wte"@].len()
    &&& forall|i: int|
        1 <= i <= context(tokens.len()) ==> (#[trigger] tokens[i]) < d["lm_head"@].len()
}

/// Empty keys, or values, for every layer.
pub fn empty_cache() -> (cache: Vec<Matrix>)
    ensures
        cache@.len() == N_LAYER,
        forall|l: int| 0 <= l < N_LAYER ==> (#[trigger] cache@[l])@.len() == 0,
{
    let mut cache: Vec<Matrix> = Vec::new();
    let mut l: usize = 0;
    while l < N_LAYER
        invariant
            l <= N_LAYER,
            cache@.len() == l,
            forall|i: int| 0 <= i < l ==> (#[trigger] cache@[i])@.len() == 0,
        decreases N_LAYER - l,
    {
        cache.push(Vec::new());
        l += 1;
    }
    cache
}

/// Empty keys and values can be attended to.
pub proof fn lemma_empty_cache(keys: Seq<Matrix>, values: Seq<Matrix>, s: Seq<Expr>)
    requires
        keys.len() == N_LAYER,
        values.len() == N_LAYER,
        forall|l: int| 0 <= l < N_LAYER ==> (#[trigger] keys[l])@.len() == 0,
        forall|l: int| 0 <= l < N_LAYER ==> (#[trigger] values[l])@.len() == 0,
    ensures
        cache_wf(keys, values, s.len()),
        pick_layers(s, keys) == no_rows(),
        pick_layers(s, values) == no_rows(),
{
    assert(pick_layers(s, keys) =~= no_rows()) by {
        assert forall|l: int| 0 <= l < N_LAYER implies pick_layers(s, keys)[l] == no_rows()[l] by {
            assert(keys[l]@.len() == 0);
            assert(pick_layers(s, keys)[l] =~= no_rows()[l]);
        }
    }
    assert(pick_layers(s, values) =~= no_rows()) by {
        assert forall|l: int| 0 <= l < N_LAYER implies pick_layers(s, values)[l]
            == no_rows()[l] by {
            assert(values[l]@.len() == 0);
            assert(pick_layers(s, values)[l] =~= no_rows()[l]);
        }
    }
}

/// The logits at the last of the first `n` positions are as many as the head has rows.
pub proof fn lemma_logits_len(tokens: Seq<usize>, w: Weights, n: nat)
    ensures
        passes(tokens, w, n).logits.len() == n,
        n > 0 ==> passes(tokens, w, n).logits[n - 1].len() == w["lm_head"@].len(),
    decreases n,
{
    if n > 0 {
        lemma_logits_len(tokens, w, (n - 1) as nat);
    }
}

/// The loss of the model on the tokens of a document.
pub fn sequence_loss(tape: &mut Tape, sd: &StateDict, tokens: &Vec<usize>) -> (loss: usize)
    requires
        old(tape).wf(),
        sd.wf(),
        dict_below(sd@, old(tape)@.len()),
        trainable(sd@, tokens@),
    ensures
        old(tape).gains(
            *final(tape),
            loss,
            loss_expr(tokens@, weights_of(old(tape)@, sd@)),
        ),
{
    let ghost start = *tape;
    let ghost d = sd@;
    let ghost w = weights_of(start@, d);
    let n: usize = if tokens.len() - 1 <= BLOCK_SIZE {
        tokens.len() - 1
    } else {
        BLOCK_SIZE
    };
    let mut keys = empty_cache();
    let mut values = empty_cache();
    let mut found: Vec<usize> = Vec::new();
    proof {
        tape_grows_to_itself(start);
        lemma_empty_cache(keys@, values@, start@);
    }
    let mut pos_id: usize = 0;
    while pos_id < n
        invariant
            tape.wf(),
            start.grows_to(*tape),
            sd.wf(),
            d == sd@,
            dict_below(d, start@.len()),
            trainable(d, tokens@),
            w == weights_of(start@, d),
            n == context(tokens@.len()),
            pos_id <= n,
            cache_wf(keys@, values@, tape@.len()),
            pick_layers(tape@, keys@) == passes(tokens@, w, pos_id as nat).keys,
            pick_layers(tape@, values@) == passes(tokens@, w, pos_id as nat).values,
            found@.len() == pos_id,
            below(found@, tape@.len()),
            forall|i: int|
                0 <= i < pos_id ==> tape@[#[trigger] found@[i] as int] == loss_at(tokens@, w, i),
        decreases n - pos_id,
    {
        let ghost mid = *tape;
        let token_id = tokens[pos_id];
        let target_id = tokens[pos_id + 1];
        proof {
            lemma_weights_prefix(start@, mid@, d);
        }
        let logits = gpt(tape, token_id, pos_id, &mut keys, &mut values, sd);
        let ghost after = *tape;
        proof {
            lemma_logits_len(tokens@, w, (pos_id + 1) as nat);
            assert(pick(after@, logits@) == passes(
                tokens@,
                w,
                (pos_id + 1) as nat,
            ).logits[pos_id as int]);
        }
        let probs = softmax(tape, &logits);
        let ghost normal = *tape;
        proof {
            assert(pick(normal@, probs@).len() == d["lm_head"@].len());
            assert(pick(normal@, probs@)[target_id as int]
                == normal@[probs@[target_id as int] as int]);
        }
        let log = tape.log(probs[target_id]);
        let loss = tape.neg(log);
        found.push(loss);
        proof {
            lemma_layers_prefix(after@, tape@, keys@);
            lemma_layers_prefix(after@, tape@, values@);
        }
        pos_id += 1;
    }
    assert(pick(tape@, found@) =~= losses(tokens@, w, n as nat));
    let ghost summands = *tape;
    let one = tape.constant(ONE);
    let count = tape.number(n);
    let n_inv = tape.quotient(one, count);
    proof {
        lemma_pick_prefix(summands@, tape@, found@);
    }
    let sum = total(tape, &found);
    tape.mul(sum, n_inv)
}

/// What a training step computes: the loss, and the steps that carry its
/// gradient back to the parameters.
pub struct TrainStep {
    pub loss: usize,
    pub steps: Vec<GradStep>,
}

/// The tokens that a training step learns from: the documents take turns.
pub open spec fn tokens_for(
    uchars: Seq<char>,
    bos: usize,
    docs: Seq<Seq<char>>,
    step: nat,
) -> Seq<usize> {
    encoded(uchars, bos, docs[(step % docs.len()) as int])
}

/// The tokens that a training step learns from.
pub fn training_tokens(docs: &Vec<String>, tok: &Tokenizer, step: usize) -> (tokens: Vec<usize>)
    requires
        docs@.len() > 0,
        covered(tok.uchars@, views(docs@)[(step as nat % docs@.len()) as int]),
    ensures
        tokens@ == tokens_for(tok.uchars@, tok.bos, views(docs@), step as nat),
{
    let doc = &docs[step % docs.len()];
    assert(views(docs@)[(step as nat % docs@.len()) as int] == doc@);
    tok.encode(doc.as_str())
}

/// How far training has come: the steps are counted from zero, and there are as many
/// as the length of a run says.
pub struct Schedule {
    /// The number of steps that were begun.
    pub begun: usize,
}

impl Schedule {
    /// Training that has not begun.
    pub fn new() -> (schedule: Schedule)
        ensures
            schedule.begun == 0,
    {
        Schedule { begun: 0 }
    }

    /// The number of the next step and the tokens that it learns from, or nothing where
    /// training is done.
    pub fn next_step(&mut self, docs: &Vec<String>, tok: &Tokenizer) -> (next: Option<
        (usize, Vec<usize>),
    >)
        requires
            docs@.len() > 0,
            old(self).begun < NUM_STEPS ==> covered(
                tok.uchars@,
                views(docs@)[(old(self).begun as nat % docs@.len()) as int],
            ),
        ensures
            next is Some <==> old(self).begun < NUM_STEPS,
            next matches Some((step, tokens)) ==> {
                &&& step == old(self).begun
                &&& tokens@ == tokens_for(tok.uchars@, tok.bos, views(docs@), step as nat)
                &&& final(self).begun == old(self).begun + 1
            },
            next is None ==> *final(self) == *old(self),
    {
        if self.begun < NUM_STEPS {
            let step = self.begun;
            let tokens = training_tokens(docs, tok, step);
            self.begun = step + 1;
            Some((step, tokens))
        } else {
            None
        }
    }
}

/// A training step on some tokens.
pub fn train_step(model: &mut Model, tokens: &Vec<usize>) -> (step: TrainStep)
    requires
        old(model).tape.wf(),
        old(model).params.wf(),
        dict_below(old(model).params@, old(model).tape@.len()),
        trainable(old(model).params@, tokens@),
    ensures
        final(model).params == old(model).params,
        old(model).tape.gains(
            final(model).tape,
            step.loss,
            loss_expr(tokens@, weights_of(old(model).tape@, old(model).params@)),
        ),
        step.steps@ == sweep(
            final(model).tape.nodes@,
            post_order(final(model).tape.nodes@, step.loss),
        ),
{
    let loss = sequence_loss(&mut model.tape, &model.params, tokens);
    let steps = model.tape.backward(loss);
    TrainStep { loss, steps }
}

/// The model looks at no later token: what it makes of a position, and so its
/// logits there, is the same for all tokens that agree up to that position.
pub proof fn law_no_look_ahead(a: Seq<usize>, b: Seq<usize>, w: Weights, n: nat)
    requires
        n <= a.len(),
        n <= b.len(),
        a.take(n as int) == b.take(n as int),
    ensures
        passes(a, w, n) == passes(b, w, n),
    decreases n,
{
    if n > 0 {
        assert(a[n - 1] == a.take(n as int)[n - 1]);
        assert(b[n - 1] == b.take(n as int)[n - 1]);
        assert(a.take(n - 1) =~= a.take(n as int).take(n - 1));
        assert(b.take(n - 1) =~= b.take(n as int).take(n - 1));
        law_no_look_ahead(a, b, w, (n - 1) as nat);
    }
}

/// A pass over more tokens leaves the logits of the earlier positions as they are.
pub proof fn law_logits_stay(tokens: Seq<usize>, w: Weights, m: nat, n: nat)
    requires
        m <= n,
    ensures
        passes(tokens, w, n).logits.take(m as int) == passes(tokens, w, m).logits,
        passes(tokens, w, n).logits.len() == n,
    decreases n,
{
    lemma_logits_len(tokens, w, n);
    lemma_logits_len(tokens, w, m);
    let all = passes(tokens, w, n).logits;
    if m < n {
        law_logits_stay(tokens, w, m, (n - 1) as nat);
        let earlier = passes(tokens, w, (n - 1) as nat).logits;
        assert(all.take(m as int) =~= earlier.take(m as int));
    } else {
        assert(all.take(m as int) =~= all);
    }
}

/// Cutting a tape back to where it was before some values were added leaves just
/// the values of before, so every step starts from the parameters alone.
pub proof fn law_cut_back(start: Tape, grown: Tape)
    requires
        start.grows_to(grown),
    ensures
        grown@.take(start@.len() as int) == start@,
        grown.nodes@.take(start@.len() as int) == start.nodes@,
{
    assert(grown@.take(start@.len() as int) =~= start@);
    assert(grown.nodes@.take(start@.len() as int) =~= start.nodes@);
}

/// The loss looks at the tokens of the context and the one after them only: tokens that
/// agree so far, and are as many as the context holds, have the same loss.
pub proof fn law_loss_ignores_later_tokens(a: Seq<usize>, b: Seq<usize>, w: Weights)
    requires
        a.len() > 0,
        b.len() > 0,
        context(a.len()) == context(b.len()),
        a.take(context(a.len()) as int + 1) == b.take(context(a.len()) as int + 1),
    ensures
        loss_expr(a, w) == loss_expr(b, w),
{
    let n = context(a.len());
    let m = n as int + 1;
    assert forall|i: int| 0 <= i < n implies loss_at(a, w, i) == loss_at(b, w, i) by {
        assert(a.take(i + 1) =~= a.take(m).take(i + 1));
        assert(b.take(i + 1) =~= b.take(m).take(i + 1));
        law_no_look_ahead(a, b, w, (i + 1) as nat);
        assert(a[i + 1] == a.take(m)[i + 1]);
        assert(b[i + 1] == b.take(m)[i + 1]);
    }
    assert(losses(a, w, n) =~= losses(b, w, n));
}

/// A document cut to as many characters as the context holds.
pub open spec fn cut(doc: Seq<char>) -> Seq<char> {
    if doc.len() <= BLOCK_SIZE {
        doc
    } else {
        doc.take(BLOCK_SIZE as int)
    }
}

/// Characters past the context are never learned from: a document that is cut there
/// has the same loss.
pub proof fn law_cut_document_has_the_same_loss(
    uchars: Seq<char>,
    bos: usize,
    doc: Seq<char>,
    w: Weights,
)
    ensures
        loss_expr(encoded(uchars, bos, cut(doc)), w) == loss_expr(encoded(uchars, bos, doc), w),
{
    if doc.len() > BLOCK_SIZE {
        let a = encoded(uchars, bos, cut(doc));
        let b = encoded(uchars, bos, doc);
        assert(a.take(BLOCK_SIZE + 1) =~= b.take(BLOCK_SIZE + 1));
        law_loss_ignores_later_tokens(a, b, w);
    }
}

/// The documents take turns: every step learns from the tokens of one of them, and the
/// same document comes again after as many steps as there are documents.
pub proof fn law_documents_take_turns(
    uchars: Seq<char>,
    bos: usize,
    docs: Seq<Seq<char>>,
    step: nat,
    round: nat,
)
    requires
        step < docs.len(),
    ensures
        tokens_for(uchars, bos, docs, round * docs.len() + step) == encoded(
            uchars,
            bos,
            docs[step as int],
        ),
{
    let n = docs.len();
    assert((round * n + step) % n == step) by (nonlinear_arith)
        requires
            step < n,
    ;
}

} // verus!
