//! Generating a document, one token at a time.

use vstd::prelude::*;

use crate::config::{BLOCK_SIZE, N_LAYER, TEMPERATURE};
use crate::gpt::{
    cache_wf, dict_below, gpt, lemma_layers_prefix, model_ready, one_row_more, pick_layers,
    weights_of, Weights,
};
use crate::layers::{scaled, scaled_exprs, softmax, softmax_exprs, total, total_expr};
use crate::params::StateDict;
use crate::tape::{
    below, constant, lemma_pick_prefix, minus, pick, quotient, times, Expr, Matrix, Tape, ONE,
};
use crate::tokenizer::{decoded, Tokenizer};
use crate::train::{empty_cache, law_no_look_ahead, lemma_empty_cache, lemma_logits_len, passes};

verus! {

/// A document in the making.
pub struct Sampler {
    /// The end mark that starts the document, and the tokens chosen so far.
    pub tokens: Vec<usize>,
    /// How many of the tokens the model has passed over.
    pub passed: usize,
    /// The text of the tokens chosen so far.
    pub text: String,
    pub keys: Vec<Matrix>,
    pub values: Vec<Matrix>,
    /// Whether the document is complete.
    pub finished: bool,
}

impl Sampler {
    /// Whether the text is that of the tokens, no longer than the context, and the
    /// model has passed over all tokens or all but the last.
    pub open spec fn wf(self, tok: Tokenizer) -> bool {
        &&& tok.wf()
        &&& 1 <= self.tokens@.len() <= BLOCK_SIZE + 1
        &&& self.tokens@[0] == tok.bos
        &&& forall|i: int| 0 < i < self.tokens@.len() ==> (#[trigger] self.tokens@[i]) < tok.bos
        &&& self.text@ == decoded(tok.uchars@, self.tokens@.skip(1))
        &&& self.passed == self.tokens@.len() || self.passed + 1 == self.tokens@.len()
        &&& !self.finished ==> self.tokens@.len() <= BLOCK_SIZE
        &&& self.tokens@.len() == BLOCK_SIZE + 1 ==> self.passed == BLOCK_SIZE
    }

    /// Whether the keys and values are those of the passes that were made.
    pub open spec fn in_step(self, tape: Tape, w: Weights) -> bool {
        &&& tape.wf()
        &&& cache_wf(self.keys@, self.values@, tape@.len())
        &&& pick_layers(tape@, self.keys@) == passes(self.tokens@, w, self.passed as nat).keys
        &&& pick_layers(tape@, self.values@) == passes(self.tokens@, w, self.passed as nat).values
    }
}

/// The probabilities of the token that follows some tokens: the softmax of the
/// logits at the last of them, divided by the temperature.
pub open spec fn next_probabilities(tokens: Seq<usize>, w: Weights) -> Seq<Expr> {
    softmax_exprs(
        scaled_exprs(
            passes(tokens, w, tokens.len()).logits[tokens.len() - 1],
            quotient(constant(ONE), constant(TEMPERATURE)),
        ),
    )
}

/// What a choice makes of the tokens so far, and whether the document is then
/// complete: the end mark completes it, any other token joins the rest, and
/// completes it where the context is full.
pub open spec fn accepted(tokens: Seq<usize>, bos: usize, choice: usize) -> (Seq<usize>, bool) {
    if choice == bos {
        (tokens, true)
    } else {
        (tokens.push(choice), tokens.len() == BLOCK_SIZE)
    }
}

/// The tokens that some choices lead to, and whether the document is then
/// complete; nothing is added to a complete one.
pub open spec fn all_accepted(bos: usize, choices: Seq<usize>) -> (Seq<usize>, bool)
    decreases choices.len(),
{
    if choices.len() == 0 {
        (seq![bos], false)
    } else {
        let (tokens, finished) = all_accepted(bos, choices.drop_last());
        if finished {
            (tokens, finished)
        } else {
            accepted(tokens, bos, choices.last())
        }
    }
}

impl Sampler {
    /// A new document.
    pub fn new(tok: &Tokenizer) -> (s: Sampler)
        requires
            tok.wf(),
        ensures
            s.wf(*tok),
            s.tokens@ == seq![tok.bos],
            s.passed == 0,
            !s.finished,
            forall|tape: Tape, w: Weights| tape.wf() ==> #[trigger] s.in_step(tape, w),
    {
        let mut tokens: Vec<usize> = Vec::new();
        tokens.push(tok.bos);
        let s = Sampler {
            tokens,
            passed: 0,
            text: String::new(),
            keys: empty_cache(),
            values: empty_cache(),
            finished: false,
        };
        proof {
            assert(s.text@ =~= decoded(tok.uchars@, s.tokens@.skip(1)));
            assert forall|tape: Tape, w: Weights| tape.wf() implies #[trigger] s.in_step(
                tape,
                w,
            ) by {
                lemma_empty_cache(s.keys@, s.values@, tape@);
            }
        }
        s
    }

    /// Passes over the last token, and puts the probabilities of the next one on
    /// the tape.
    pub fn probabilities(&mut self, tape: &mut Tape, sd: &StateDict) -> (probs: Vec<usize>)
        requires
            sd.wf(),
            model_ready(sd@),
            dict_below(sd@, old(tape)@.len()),
            old(self).in_step(*old(tape), weights_of(old(tape)@, sd@)),
            old(self).passed + 1 == old(self).tokens@.len(),
            old(self).tokens@.last() < sd@["wte"@].len(),
            old(self).passed < sd@["wpe"@].len(),
        ensures
            old(tape).gains_all(
                *final(tape),
                probs@,
                next_probabilities(old(self).tokens@, weights_of(old(tape)@, sd@)),
            ),
            probs@.len() == sd@["lm_head"@].len(),
            final(self).in_step(*final(tape), weights_of(old(tape)@, sd@)),
            one_row_more(old(self).keys@, final(self).keys@, N_LAYER as nat),
            one_row_more(old(self).values@, final(self).values@, N_LAYER as nat),
            final(self).passed == old(self).passed + 1,
            final(self).tokens == old(self).tokens,
            final(self).text == old(self).text,
            final(self).finished == old(self).finished,
            forall|tok: Tokenizer|
                old(self).wf(tok) && !old(self).finished ==> #[trigger] final(self).wf(tok),
    {
        let ghost start = *tape;
        let ghost w = weights_of(start@, sd@);
        let ghost tokens = self.tokens@;
        let pos_id = self.passed;
        let token_id = self.tokens[pos_id];
        let logits = gpt(tape, token_id, pos_id, &mut self.keys, &mut self.values, sd);
        let ghost after = *tape;
        let ghost all = passes(tokens, w, tokens.len());
        proof {
            lemma_logits_len(tokens, w, tokens.len());
            assert(pick(after@, logits@) == all.logits[pos_id as int]);
            assert(logits@.len() == pick(after@, logits@).len());
        }
        let one = tape.constant(ONE);
        let temperature = tape.constant(TEMPERATURE);
        let factor = tape.quotient(one, temperature);
        proof {
            lemma_pick_prefix(after@, tape@, logits@);
        }
        let softened = scaled(tape, &logits, factor);
        let probs = softmax(tape, &softened);
        self.passed = self.tokens.len();
        proof {
            lemma_layers_prefix(after@, tape@, self.keys@);
            lemma_layers_prefix(after@, tape@, self.values@);
            assert(pick(tape@, probs@).len() == all.logits[pos_id as int].len());
        }
        probs
    }

    /// Takes the token that was chosen from the probabilities.
    pub fn accept(&mut self, tok: &Tokenizer, choice: usize)
        requires
            old(self).wf(*tok),
            !old(self).finished,
            old(self).passed == old(self).tokens@.len(),
            choice < tok.vocab_size,
        ensures
            final(self).wf(*tok),
            (final(self).tokens@, final(self).finished) == accepted(
                old(self).tokens@,
                tok.bos,
                choice,
            ),
            final(self).passed == old(self).passed,
            final(self).keys == old(self).keys,
            final(self).values == old(self).values,
            forall|tape: Tape, w: Weights|
                old(self).in_step(tape, w) ==> #[trigger] final(self).in_step(tape, w),
    {
        let ghost start = *self;
        if choice == tok.bos {
            self.finished = true;
        } else {
            self.text.push(tok.char_of(choice));
            self.tokens.push(choice);
            if self.tokens.len() > BLOCK_SIZE {
                self.finished = true;
            }
            assert(self.text@ =~= decoded(tok.uchars@, self.tokens@.skip(1)));
        }
        proof {
            let now = *self;
            assert forall|tape: Tape, w: Weights| start.in_step(tape, w) implies #[trigger]
                now.in_step(tape, w) by {
                assert(now.tokens@.take(start.passed as int) =~= start.tokens@.take(
                    start.passed as int,
                ));
                law_no_look_ahead(start.tokens@, now.tokens@, w, start.passed as nat);
            }
        }
    }
}

/// A document stays in step with a tape that grows: what is put on the tape between two
/// tokens does not disturb the next pass.
pub proof fn law_in_step_as_the_tape_grows(s: Sampler, start: Tape, grown: Tape, w: Weights)
    requires
        s.in_step(start, w),
        start.grows_to(grown),
        grown.wf(),
    ensures
        s.in_step(grown, w),
{
    lemma_layers_prefix(start@, grown@, s.keys@);
    lemma_layers_prefix(start@, grown@, s.values@);
}

/// A document consists of the choices before the first end mark, and of no more
/// than the context holds; it is complete once there is one choice more, or the
/// context is full.
pub proof fn law_document_of_choices(bos: usize, choices: Seq<usize>)
    ensures
        ({
            let (tokens, finished) = all_accepted(bos, choices);
            let kept = tokens.len() - 1;
            &&& 0 <= kept <= BLOCK_SIZE
            &&& kept <= choices.len()
            &&& tokens == seq![bos] + choices.take(kept)
            &&& forall|i: int| 0 <= i < kept ==> (#[trigger] choices[i]) != bos
            &&& kept < choices.len() ==> kept == BLOCK_SIZE || choices[kept] == bos
            &&& finished <==> kept == BLOCK_SIZE || kept < choices.len()
        }),
    decreases choices.len(),
{
    if choices.len() == 0 {
        assert(seq![bos] + choices.take(0) =~= seq![bos]);
    } else {
        let before = choices.drop_last();
        law_document_of_choices(bos, before);
        let (tokens, finished) = all_accepted(bos, before);
        let kept = tokens.len() - 1;
        assert forall|i: int| 0 <= i < before.len() implies before[i] == choices[i] by {}
        assert(before.take(kept) =~= choices.take(kept));
        if !finished && choices.last() != bos {
            assert(tokens.push(choices.last()) =~= seq![bos] + choices.take(kept + 1));
        }
    }
}

/// What is left of a random share of all weights once the first `n` of them are
/// taken from it, where `draw` is the share.
pub open spec fn left_over(draw: Expr, weights: Seq<Expr>, n: nat) -> Expr
    decreases n,
{
    if n == 0 {
        times(draw, total_expr(weights, weights.len()))
    } else {
        minus(left_over(draw, weights, (n - 1) as nat), weights[n - 1])
    }
}

/// What is left of a random share of all weights once they are taken from it, one
/// after the other.
pub open spec fn left_overs(draw: Expr, weights: Seq<Expr>) -> Seq<Expr> {
    Seq::new(weights.len(), |i: int| left_over(draw, weights, (i + 1) as nat))
}

/// Puts on the tape what is left of a random share of all weights after each of them.
pub fn remainders(tape: &mut Tape, draw: usize, weights: &Vec<usize>) -> (left: Vec<usize>)
    requires
        old(tape).wf(),
        draw < old(tape)@.len(),
        below(weights@, old(tape)@.len()),
    ensures
        old(tape).gains_all(
            *final(tape),
            left@,
            left_overs(old(tape)@[draw as int], pick(old(tape)@, weights@)),
        ),
{
    let ghost start = *tape;
    let ghost d = start@[draw as int];
    let ghost ws = pick(start@, weights@);
    let sum = total(tape, weights);
    let mut r = tape.mul(draw, sum);
    let mut left: Vec<usize> = Vec::new();
    let mut i: usize = 0;
    while i < weights.len()
        invariant
            tape.wf(),
            start.grows_to(*tape),
            below(weights@, start@.len()),
            ws == pick(start@, weights@),
            i <= weights@.len(),
            r < tape@.len(),
            tape@[r as int] == left_over(d, ws, i as nat),
            left@.len() == i,
            below(left@, tape@.len()),
            forall|k: int|
                0 <= k < i ==> tape@[#[trigger] left@[k] as int] == left_over(
                    d,
                    ws,
                    (k + 1) as nat,
                ),
        decreases weights@.len() - i,
    {
        assert(weights@[i as int] < start@.len());
        assert(ws[i as int] == start@[weights@[i as int] as int]);
        r = tape.sub(r, weights[i]);
        left.push(r);
        i += 1;
    }
    assert(pick(tape@, left@) =~= left_overs(d, ws));
    left
}

/// The first position at which something is used up, or the last position where it
/// never is.
pub open spec fn first_used_up(used_up: Seq<bool>) -> nat
    decreases used_up.len(),
{
    if used_up.len() <= 1 || used_up[0] {
        0
    } else {
        1 + first_used_up(used_up.drop_first())
    }
}

/// What the first position at which something is used up is.
pub proof fn lemma_first_used_up(used_up: Seq<bool>, p: nat)
    requires
        p < used_up.len(),
        forall|i: int| 0 <= i < p ==> !(#[trigger] used_up[i]),
        used_up[p as int] || p == used_up.len() - 1,
    ensures
        first_used_up(used_up) == p,
    decreases used_up.len(),
{
    if p > 0 {
        let rest = used_up.drop_first();
        assert(!used_up[0]);
        assert forall|i: int| 0 <= i < p - 1 implies !(#[trigger] rest[i]) by {
            assert(rest[i] == used_up[i + 1]);
        }
        lemma_first_used_up(rest, (p - 1) as nat);
    }
}

/// The first position at which the share is used up, or the last position where it
/// never is.
///
/// `used_up[i]` says whether nothing is left of the share once the weights from the
/// first to number `i` are taken from it.
pub fn weighted_choice(used_up: &Vec<bool>) -> (choice: usize)
    requires
        used_up@.len() > 0,
    ensures
        choice == first_used_up(used_up@),
        choice < used_up@.len(),
        forall|i: int| 0 <= i < choice ==> !(#[trigger] used_up@[i]),
        used_up@[choice as int] || choice == used_up@.len() - 1,
{
    let mut i: usize = 0;
    while i < used_up.len()
        invariant
            i <= used_up@.len(),
            forall|k: int| 0 <= k < i ==> !(#[trigger] used_up@[k]),
        decreases used_up@.len() - i,
    {
        if used_up[i] {
            proof {
                lemma_first_used_up(used_up@, i as nat);
            }
            return i;
        }
        i += 1;
    }
    proof {
        lemma_first_used_up(used_up@, (used_up@.len() - 1) as nat);
    }
    used_up.len() - 1
}

/// A choice that is the end mark completes a document and leaves it as it is; any other
/// joins it, and completes it just where the context is then full.
pub proof fn law_a_choice(tokens: Seq<usize>, bos: usize, choice: usize)
    ensures
        ({
            let (after, finished) = accepted(tokens, bos, choice);
            &&& choice == bos ==> after == tokens && finished
            &&& choice != bos ==> after.len() == tokens.len() + 1 && after.drop_last() == tokens
                && after[tokens.len() as int] == choice
            &&& choice != bos ==> (finished <==> after.len() == BLOCK_SIZE + 1)
        }),
{
    let (after, finished) = accepted(tokens, bos, choice);
    if choice != bos {
        assert(after.drop_last() =~= tokens);
    }
}

} // verus!
