//! Where the gradient of the loss flows: back to the embeddings of every token and every
//! position that the loss was computed from.

use vstd::prelude::*;

use crate::config::{BLOCK_SIZE, N_EMBD, N_LAYER};
use crate::gpt::{
    after_layer, after_layers, attended, embedded, gpt_stream, head_of, perceived, projected,
    Stream, Weights,
};
use crate::layers::{
    dot_expr, feeds, law_softmax_feeds_logits, lemma_feeds_total, softmax_exprs, sum_exprs,
};
use crate::params::layer_part;
use crate::tape::{logarithm, Expr};
use crate::train::{context, lemma_logits_len, loss_at, loss_expr, losses, passes};

verus! {

/// What flows to a part flows to the parts of that part.
proof fn lemma_feeds_through(a: Expr, b: Expr, c: Expr)
    requires
        feeds(a, b),
        feeds(b, c),
    ensures
        feeds(a, c),
    decreases c,
{
    if b != c {
        let i = choose|i: int| 0 <= i < c.args.len() && feeds(b, #[trigger] c.args[i]);
        lemma_feeds_through(a, b, c.args[i]);
    }
}

/// Whether the matrices of a model are wide enough for its vectors.
pub open spec fn full_width(w: Weights) -> bool {
    &&& forall|t: int| 0 <= t < w["wte"@].len() ==> (#[trigger] w["wte"@][t]).len() == N_EMBD
    &&& forall|p: int| 0 <= p < w["wpe"@].len() ==> (#[trigger] w["wpe"@][p]).len() == N_EMBD
    &&& forall|r: int| 0 <= r < w["lm_head"@].len() ==> (#[trigger] w["lm_head"@][r]).len() == N_EMBD
    &&& forall|l: nat|
        l < N_LAYER ==> (#[trigger] w[layer_part(l, "attn_wo"@)]).len() == N_EMBD
    &&& forall|l: nat|
        l < N_LAYER ==> (#[trigger] w[layer_part(l, "mlp_fc2"@)]).len() == N_EMBD
}

/// A gradient flows past a layer, from each entry that leaves it to the same entry that
/// enters it.
proof fn lemma_past_layer(s: Stream, w: Weights, l: nat, c: int)
    requires
        full_width(w),
        l < N_LAYER,
        s.x.len() == N_EMBD,
        0 <= c < N_EMBD,
    ensures
        after_layer(s, w, l).x.len() == N_EMBD,
        feeds(s.x[c], after_layer(s, w, l).x[c]),
{
    let out = after_layer(s, w, l);
    let keys = s.keys[l as int].push(projected(s.x, w, l, "attn_wk"@));
    let values = s.values[l as int].push(projected(s.x, w, l, "attn_wv"@));
    let mid = attended(s.x, keys, values, w, l);
    assert(w[layer_part(l, "attn_wo"@)].len() == N_EMBD);
    assert(w[layer_part(l, "mlp_fc2"@)].len() == N_EMBD);
    assert(mid.len() == N_EMBD);
    assert(mid[c].args[1] == s.x[c]);
    assert(feeds(s.x[c], mid[c].args[1]));
    assert(out.x == perceived(mid, w, l));
    assert(out.x[c].args[1] == mid[c]);
    assert(feeds(mid[c], out.x[c].args[1]));
    assert(feeds(mid[c], out.x[c]));
    lemma_feeds_through(s.x[c], mid[c], out.x[c]);
}

proof fn lemma_past_layers(s: Stream, w: Weights, n: nat, c: int)
    requires
        full_width(w),
        n <= N_LAYER,
        s.x.len() == N_EMBD,
        0 <= c < N_EMBD,
    ensures
        after_layers(s, w, n).x.len() == N_EMBD,
        feeds(s.x[c], after_layers(s, w, n).x[c]),
    decreases n,
{
    if n > 0 {
        let m = (n - 1) as nat;
        lemma_past_layers(s, w, m, c);
        let t = after_layers(s, w, m);
        lemma_past_layer(t, w, m, c);
        lemma_feeds_through(s.x[c], t.x[c], after_layers(s, w, n).x[c]);
    }
}

/// A scalar product hands its gradient on to the entries of its second vector.
proof fn lemma_feeds_dot(x: Seq<Expr>, y: Seq<Expr>, n: nat, c: int)
    requires
        0 <= c < n,
        n <= x.len(),
        n <= y.len(),
    ensures
        feeds(y[c], dot_expr(x, y, n)),
    decreases n,
{
    let whole = dot_expr(x, y, n);
    if c < n - 1 {
        lemma_feeds_dot(x, y, (n - 1) as nat, c);
        assert(feeds(y[c], whole.args[0]));
    } else {
        let product = whole.args[1];
        assert(feeds(y[c], product.args[1]));
        assert(feeds(y[c], whole.args[1]));
    }
}

/// The gradient of every logit flows to the embeddings of its token and its position.
proof fn lemma_logit_feeds(
    token_id: int,
    pos_id: int,
    keys: Seq<Seq<Seq<Expr>>>,
    values: Seq<Seq<Seq<Expr>>>,
    w: Weights,
    r: int,
    c: int,
)
    requires
        full_width(w),
        0 <= token_id < w["wte"@].len(),
        0 <= pos_id < w["wpe"@].len(),
        0 <= r < w["lm_head"@].len(),
        0 <= c < N_EMBD,
    ensures
        ({
            let logit = head_of(gpt_stream(token_id, pos_id, keys, values, w), w)[r];
            &&& feeds(w["wte"@][token_id][c], logit)
            &&& feeds(w["wpe"@][pos_id][c], logit)
        }),
{
    let t = w["wte"@][token_id];
    let p = w["wpe"@][pos_id];
    let x = embedded(token_id, pos_id, w);
    let entry = Stream { x, keys, values };
    let s = gpt_stream(token_id, pos_id, keys, values, w);
    let logit = head_of(s, w)[r];
    assert(t.len() == N_EMBD && p.len() == N_EMBD);
    let both = sum_exprs(t, p);
    assert(both.len() == N_EMBD);
    assert(both[c].args[0] == t[c] && both[c].args[1] == p[c]);
    assert(feeds(t[c], both[c].args[0]));
    assert(feeds(p[c], both[c].args[1]));
    assert(x[c].args[0] == both[c]);
    assert(feeds(t[c], x[c].args[0]));
    assert(feeds(p[c], x[c].args[0]));
    assert(feeds(t[c], x[c]));
    assert(feeds(p[c], x[c]));
    lemma_past_layers(entry, w, N_LAYER as nat, c);
    assert(w["lm_head"@][r].len() == N_EMBD);
    lemma_feeds_dot(w["lm_head"@][r], s.x, N_EMBD as nat, c);
    assert(feeds(s.x[c], logit));
    lemma_feeds_through(t[c], x[c], s.x[c]);
    lemma_feeds_through(p[c], x[c], s.x[c]);
    lemma_feeds_through(t[c], s.x[c], logit);
    lemma_feeds_through(p[c], s.x[c], logit);
}

/// The gradient of the loss flows back to every entry of the embedding of every token in
/// the context, each to the row of that very token, and of every position.
pub proof fn law_loss_feeds_embeddings(tokens: Seq<usize>, w: Weights, i: int, c: int)
    requires
        full_width(w),
        tokens.len() >= 2,
        0 <= i < tokens.len() - 1,
        i < BLOCK_SIZE,
        0 <= c < N_EMBD,
        tokens[i] < w["wte"@].len(),
        i < w["wpe"@].len(),
        tokens[i + 1] < w["lm_head"@].len(),
    ensures
        feeds(w["wte"@][tokens[i] as int][c], loss_expr(tokens, w)),
        feeds(w["wpe"@][i][c], loss_expr(tokens, w)),
{
    let n = context(tokens.len());
    let m = (i + 1) as nat;
    let target = tokens[i + 1] as int;
    let before = passes(tokens, w, i as nat);
    let logits = passes(tokens, w, m).logits[i];
    let (x, y) = (w["wte"@][tokens[i] as int][c], w["wpe"@][i][c]);
    lemma_logits_len(tokens, w, m);
    lemma_logits_len(tokens, w, i as nat);
    lemma_logit_feeds(tokens[i] as int, i, before.keys, before.values, w, target, c);
    law_softmax_feeds_logits(logits, target, target);
    let p = softmax_exprs(logits)[target];
    lemma_feeds_through(x, logits[target], p);
    lemma_feeds_through(y, logits[target], p);
    let e = loss_at(tokens, w, i);
    assert(e.args[0] == logarithm(p));
    assert(logarithm(p).args[0] == p);
    assert(feeds(p, logarithm(p).args[0]));
    assert(feeds(p, e.args[0]));
    assert(feeds(p, e));
    let all = losses(tokens, w, n);
    assert(all[i] == e);
    lemma_feeds_total(p, all, n, i);
    let whole = loss_expr(tokens, w);
    assert(feeds(p, whole.args[0]));
    assert(feeds(p, whole));
    lemma_feeds_through(x, p, whole);
    lemma_feeds_through(y, p, whole);
}

} // verus!
