//! The transformer: what it computes for one position, and the code that puts
//! that computation on a tape.

use vstd::prelude::*;

use crate::config::{HEAD_DIM, N_EMBD, N_HEAD, N_LAYER};
use crate::layers::{
    dot, dot_expr, linear, linear_exprs, rectify, relu_exprs, rmsnorm, rmsnorm_exprs, softmax,
    softmax_exprs, sum_exprs, summed, tape_grows_to_itself,
};
use crate::params::{layer_name, layer_part, Dict, StateDict};
use crate::tape::{
    below, constant, lemma_pick_prefix, lemma_pick_rows_prefix, number, pick, pick_rows, prefix,
    quotient, root, rows, rows_below, times, Expr, Matrix, Tape, ONE,
};

verus! {

/// Named matrices of expressions.
pub type Weights = Map<Seq<char>, Seq<Seq<Expr>>>;

/// What the entries of named matrices stand for.
pub open spec fn weights_of(values: Seq<Expr>, d: Dict) -> Weights {
    d.map_values(|m: Seq<Seq<usize>>| pick_rows(values, m))
}

/// The part of a vector that belongs to the head at offset `hs`.
pub open spec fn head_part(v: Seq<Expr>, hs: int) -> Seq<Expr> {
    v.subrange(hs, hs + HEAD_DIM)
}

/// One over the square root of the width of a head.
pub open spec fn head_scale() -> Expr {
    quotient(constant(ONE), root(number(HEAD_DIM)))
}

/// How well the query matches each key, for the head at offset `hs`: the scalar
/// product over the square root of the head's width.
pub open spec fn head_logits(q: Seq<Expr>, keys: Seq<Seq<Expr>>, hs: int) -> Seq<Expr> {
    Seq::new(
        keys.len(),
        |t: int|
            times(
                dot_expr(head_part(q, hs), head_part(keys[t], hs), HEAD_DIM as nat),
                head_scale(),
            ),
    )
}

/// Entry `j` of the head at offset `hs` in the values of the first `n` positions.
pub open spec fn head_column(values: Seq<Seq<Expr>>, n: nat, hs: int, j: int) -> Seq<Expr> {
    Seq::new(n, |t: int| head_part(values[t], hs)[j])
}

/// The output of the head at offset `hs`: the values of all positions so far,
/// weighed by how well their keys match the query.
pub open spec fn head_exprs(
    q: Seq<Expr>,
    keys: Seq<Seq<Expr>>,
    values: Seq<Seq<Expr>>,
    hs: int,
) -> Seq<Expr> {
    Seq::new(
        HEAD_DIM as nat,
        |j: int|
            dot_expr(
                softmax_exprs(head_logits(q, keys, hs)),
                head_column(values, keys.len(), hs, j),
                keys.len(),
            ),
    )
}

/// The outputs of the first `n` heads, one after the other.
pub open spec fn attention_exprs(
    q: Seq<Expr>,
    keys: Seq<Seq<Expr>>,
    values: Seq<Seq<Expr>>,
    n: nat,
) -> Seq<Expr>
    decreases n,
{
    if n == 0 {
        Seq::empty()
    } else {
        attention_exprs(q, keys, values, (n - 1) as nat) + head_exprs(
            q,
            keys,
            values,
            (n - 1) * HEAD_DIM,
        )
    }
}

/// The normalised input of layer `li` under one of its matrices.
pub open spec fn projected(x: Seq<Expr>, w: Weights, li: nat, part: Seq<char>) -> Seq<Expr> {
    linear_exprs(rmsnorm_exprs(x), w[layer_part(li, part)])
}

/// The first half of layer `li`: attention, added to its input.
pub open spec fn attended(
    x: Seq<Expr>,
    keys: Seq<Seq<Expr>>,
    values: Seq<Seq<Expr>>,
    w: Weights,
    li: nat,
) -> Seq<Expr> {
    let q = projected(x, w, li, "attn_wq"@);
    sum_exprs(
        linear_exprs(
            attention_exprs(q, keys, values, N_HEAD as nat),
            w[layer_part(li, "attn_wo"@)],
        ),
        x,
    )
}

/// The second half of layer `li`: two linear layers with a rectifier between
/// them, added to their input.
pub open spec fn perceived(x: Seq<Expr>, w: Weights, li: nat) -> Seq<Expr> {
    sum_exprs(
        linear_exprs(
            relu_exprs(projected(x, w, li, "mlp_fc1"@)),
            w[layer_part(li, "mlp_fc2"@)],
        ),
        x,
    )
}

/// What runs through the layers at one position: the vector, and for each layer
/// the keys and the values of all positions so far.
pub struct Stream {
    pub x: Seq<Expr>,
    pub keys: Seq<Seq<Seq<Expr>>>,
    pub values: Seq<Seq<Seq<Expr>>>,
}

/// The stream after layer `li`: its key and its value join those of the earlier
/// positions, and the vector passes both halves of the layer.
pub open spec fn after_layer(s: Stream, w: Weights, li: nat) -> Stream {
    let keys = s.keys[li as int].push(projected(s.x, w, li, "attn_wk"@));
    let values = s.values[li as int].push(projected(s.x, w, li, "attn_wv"@));
    Stream {
        x: perceived(attended(s.x, keys, values, w, li), w, li),
        keys: s.keys.update(li as int, keys),
        values: s.values.update(li as int, values),
    }
}

/// The stream after the first `n` layers.
pub open spec fn after_layers(s: Stream, w: Weights, n: nat) -> Stream
    decreases n,
{
    if n == 0 {
        s
    } else {
        after_layer(after_layers(s, w, (n - 1) as nat), w, (n - 1) as nat)
    }
}

/// What enters the first layer: the normalised sum of the embeddings of the token
/// and of the position.
pub open spec fn embedded(token_id: int, pos_id: int, w: Weights) -> Seq<Expr> {
    rmsnorm_exprs(sum_exprs(w["wte"@][token_id], w["wpe"@][pos_id]))
}

/// The stream at the end of the last layer.
pub open spec fn gpt_stream(
    token_id: int,
    pos_id: int,
    keys: Seq<Seq<Seq<Expr>>>,
    values: Seq<Seq<Seq<Expr>>>,
    w: Weights,
) -> Stream {
    after_layers(Stream { x: embedded(token_id, pos_id, w), keys, values }, w, N_LAYER as nat)
}

/// The logits for the token that follows.
pub open spec fn head_of(s: Stream, w: Weights) -> Seq<Expr> {
    linear_exprs(s.x, w["lm_head"@])
}

/// What the entries of the keys or values of each layer stand for.
pub open spec fn pick_layers(values: Seq<Expr>, cache: Seq<Matrix>) -> Seq<Seq<Seq<Expr>>> {
    Seq::new(cache.len(), |l: int| pick_rows(values, rows(cache[l]@)))
}

/// Whether every row of a matrix is wide enough for all heads.
pub open spec fn wide(m: Seq<Seq<usize>>) -> bool {
    forall|r: int| 0 <= r < m.len() ==> (#[trigger] m[r]).len() >= N_EMBD
}

/// Whether the keys and values of the layers can be attended to: all on the tape,
/// wide enough, and a value for every key.
pub open spec fn cache_wf(keys: Seq<Matrix>, values: Seq<Matrix>, n: nat) -> bool {
    &&& keys.len() >= N_LAYER
    &&& values.len() >= N_LAYER
    &&& forall|l: int|
        0 <= l < N_LAYER ==> wide(rows((#[trigger] keys[l])@)) && keys[l]@.len()
            <= values[l]@.len()
    &&& forall|l: int| 0 <= l < N_LAYER ==> wide(rows((#[trigger] values[l])@))
    &&& forall|l: int| 0 <= l < keys.len() ==> rows_below(rows((#[trigger] keys[l])@), n)
    &&& forall|l: int| 0 <= l < values.len() ==> rows_below(rows((#[trigger] values[l])@), n)
}

/// Whether the first `n` matrices have got one row more, below those that they had,
/// and the others are as before.
pub open spec fn one_row_more(before: Seq<Matrix>, after: Seq<Matrix>, n: nat) -> bool {
    &&& after.len() == before.len()
    &&& forall|l: int|
        0 <= l < n && l < before.len() ==> (#[trigger] after[l])@.len() == before[l]@.len() + 1
            && rows(after[l]@).drop_last() == rows(before[l]@)
    &&& forall|l: int| n <= l < before.len() ==> #[trigger] after[l] == before[l]
}

/// Whether all entries of all matrices are on the tape.
pub open spec fn dict_below(d: Dict, n: nat) -> bool {
    forall|name: Seq<char>| #[trigger] d.contains_key(name) ==> rows_below(d[name], n)
}

/// Whether a layer has all its matrices, with rows enough for all heads.
pub open spec fn layer_ready(d: Dict, li: nat) -> bool {
    &&& d.contains_key(layer_part(li, "attn_wq"@))
    &&& d.contains_key(layer_part(li, "attn_wk"@))
    &&& d.contains_key(layer_part(li, "attn_wv"@))
    &&& d.contains_key(layer_part(li, "attn_wo"@))
    &&& d.contains_key(layer_part(li, "mlp_fc1"@))
    &&& d.contains_key(layer_part(li, "mlp_fc2"@))
    &&& d[layer_part(li, "attn_wq"@)].len() >= N_EMBD
    &&& d[layer_part(li, "attn_wk"@)].len() >= N_EMBD
    &&& d[layer_part(li, "attn_wv"@)].len() >= N_EMBD
}

/// Whether the model has all its matrices.
pub open spec fn model_ready(d: Dict) -> bool {
    &&& d.contains_key("wte"@)
    &&& d.contains_key("wpe"@)
    &&& d.contains_key("lm_head"@)
    &&& forall|li: nat| li < N_LAYER ==> #[trigger] layer_ready(d, li)
}

/// A part of a vector stands for the part of what the vector stands for.
proof fn lemma_pick_subrange<T>(s: Seq<T>, ids: Seq<usize>, from: int, to: int)
    requires
        0 <= from <= to <= ids.len(),
    ensures
        pick(s, ids.subrange(from, to)) == pick(s, ids).subrange(from, to),
{
    assert(pick(s, ids.subrange(from, to)) =~= pick(s, ids).subrange(from, to));
}

/// The part of a vector that belongs to the head at offset `hs`.
fn head_slice(v: &Vec<usize>, hs: usize) -> (part: Vec<usize>)
    requires
        hs + HEAD_DIM <= v@.len(),
    ensures
        part@ == v@.subrange(hs as int, hs + HEAD_DIM),
{
    let width: usize = v.len();
    let mut part: Vec<usize> = Vec::new();
    let mut i: usize = 0;
    while i < HEAD_DIM
        invariant
            width == v@.len(),
            hs + HEAD_DIM <= width,
            i <= HEAD_DIM,
            part@ == v@.subrange(hs as int, hs + i),
        decreases HEAD_DIM - i,
    {
        part.push(v[hs + i]);
        i += 1;
        assert(part@ =~= v@.subrange(hs as int, hs + i));
    }
    part
}

/// The output of one attention head.
pub fn attention_head(
    tape: &mut Tape,
    q: &Vec<usize>,
    keys: &Matrix,
    values: &Matrix,
    hs: usize,
) -> (out: Vec<usize>)
    requires
        old(tape).wf(),
        hs + HEAD_DIM <= N_EMBD,
        q@.len() >= N_EMBD,
        below(q@, old(tape)@.len()),
        wide(rows(keys@)),
        wide(rows(values@)),
        rows_below(rows(keys@), old(tape)@.len()),
        rows_below(rows(values@), old(tape)@.len()),
        keys@.len() <= values@.len(),
    ensures
        old(tape).gains_all(
            *final(tape),
            out@,
            head_exprs(
                pick(old(tape)@, q@),
                pick_rows(old(tape)@, rows(keys@)),
                pick_rows(old(tape)@, rows(values@)),
                hs as int,
            ),
        ),
{
    let ghost start = *tape;
    let ghost sq = pick(start@, q@);
    let ghost sk = pick_rows(start@, rows(keys@));
    let ghost sv = pick_rows(start@, rows(values@));
    let ghost goal_logits = head_logits(sq, sk, hs as int);
    let n: usize = keys.len();
    let q_h = head_slice(q, hs);
    proof {
        lemma_pick_subrange(start@, q@, hs as int, hs + HEAD_DIM);
        tape_grows_to_itself(start);
    }
    let one = tape.constant(ONE);
    let width = tape.number(HEAD_DIM);
    let width_root = tape.root(width);
    let scale = tape.quotient(one, width_root);
    let mut logits: Vec<usize> = Vec::new();
    let mut t: usize = 0;
    while t < n
        invariant
            tape.wf(),
            start.grows_to(*tape),
            hs + HEAD_DIM <= N_EMBD,
            n == keys@.len(),
            wide(rows(keys@)),
            rows_below(rows(keys@), start@.len()),
            below(q_h@, start@.len()),
            q_h@.len() == HEAD_DIM,
            pick(start@, q_h@) == head_part(sq, hs as int),
            sk == pick_rows(start@, rows(keys@)),
            goal_logits == head_logits(sq, sk, hs as int),
            scale < tape@.len(),
            tape@[scale as int] == head_scale(),
            t <= n,
            logits@.len() == t,
            below(logits@, tape@.len()),
            forall|i: int| 0 <= i < t ==> tape@[#[trigger] logits@[i] as int] == goal_logits[i],
        decreases n - t,
    {
        let ghost mid = *tape;
        assert(rows(keys@)[t as int] == keys@[t as int]@);
        let k_h = head_slice(&keys[t], hs);
        proof {
            lemma_pick_subrange(start@, keys@[t as int]@, hs as int, hs + HEAD_DIM);
            assert(below(k_h@, start@.len()));
            lemma_pick_prefix(start@, mid@, k_h@);
            lemma_pick_prefix(start@, mid@, q_h@);
        }
        let product = dot(tape, &q_h, &k_h);
        let logit = tape.mul(product, scale);
        logits.push(logit);
        t += 1;
    }
    assert(pick(tape@, logits@) =~= goal_logits);
    let weights = softmax(tape, &logits);
    let ghost goal_weights = softmax_exprs(goal_logits);
    let ghost weighed = *tape;
    let ghost goal = head_exprs(sq, sk, sv, hs as int);
    let mut out: Vec<usize> = Vec::new();
    let mut j: usize = 0;
    while j < HEAD_DIM
        invariant
            tape.wf(),
            start.grows_to(*tape),
            weighed.grows_to(*tape),
            start.grows_to(weighed),
            hs + HEAD_DIM <= N_EMBD,
            n == keys@.len(),
            n <= values@.len(),
            wide(rows(values@)),
            rows_below(rows(values@), start@.len()),
            sk.len() == n,
            sv == pick_rows(start@, rows(values@)),
            below(weights@, weighed@.len()),
            pick(weighed@, weights@) == goal_weights,
            goal_weights == softmax_exprs(goal_logits),
            goal_logits == head_logits(sq, sk, hs as int),
            goal == head_exprs(sq, sk, sv, hs as int),
            j <= HEAD_DIM,
            out@.len() == j,
            below(out@, tape@.len()),
            forall|i: int| 0 <= i < j ==> tape@[#[trigger] out@[i] as int] == goal[i],
        decreases HEAD_DIM - j,
    {
        let ghost mid = *tape;
        let ghost column_exprs = head_column(sv, n as nat, hs as int, j as int);
        let mut column: Vec<usize> = Vec::new();
        t = 0;
        while t < n
            invariant
                hs + HEAD_DIM <= N_EMBD,
                j < HEAD_DIM,
                n <= values@.len(),
                wide(rows(values@)),
                rows_below(rows(values@), start@.len()),
                sv == pick_rows(start@, rows(values@)),
                column_exprs == head_column(sv, n as nat, hs as int, j as int),
                t <= n,
                column@.len() == t,
                below(column@, start@.len()),
                forall|i: int|
                    0 <= i < t ==> start@[#[trigger] column@[i] as int] == column_exprs[i],
            decreases n - t,
        {
            assert(rows(values@)[t as int] == values@[t as int]@);
            assert(values@[t as int]@[hs + j] < start@.len());
            column.push(values[t][hs + j]);
            t += 1;
        }
        assert(pick(start@, column@) =~= column_exprs);
        proof {
            lemma_pick_prefix(start@, mid@, column@);
            lemma_pick_prefix(weighed@, mid@, weights@);
        }
        assert(weights@.len() == n) by {
            assert(pick(weighed@, weights@).len() == goal_weights.len());
        }
        let entry = dot(tape, &weights, &column);
        out.push(entry);
        j += 1;
    }
    assert(pick(tape@, out@) =~= goal);
    out
}

/// The outputs of all attention heads, one after the other.
pub fn attention(tape: &mut Tape, q: &Vec<usize>, keys: &Matrix, values: &Matrix) -> (out: Vec<
    usize,
>)
    requires
        old(tape).wf(),
        q@.len() >= N_EMBD,
        below(q@, old(tape)@.len()),
        wide(rows(keys@)),
        wide(rows(values@)),
        rows_below(rows(keys@), old(tape)@.len()),
        rows_below(rows(values@), old(tape)@.len()),
        keys@.len() <= values@.len(),
    ensures
        old(tape).gains_all(
            *final(tape),
            out@,
            attention_exprs(
                pick(old(tape)@, q@),
                pick_rows(old(tape)@, rows(keys@)),
                pick_rows(old(tape)@, rows(values@)),
                N_HEAD as nat,
            ),
        ),
{
    let ghost start = *tape;
    let ghost sq = pick(start@, q@);
    let ghost sk = pick_rows(start@, rows(keys@));
    let ghost sv = pick_rows(start@, rows(values@));
    proof {
        tape_grows_to_itself(start);
    }
    let mut out: Vec<usize> = Vec::new();
    let mut h: usize = 0;
    assert(pick(tape@, out@) =~= attention_exprs(sq, sk, sv, 0));
    while h < N_HEAD
        invariant
            tape.wf(),
            start.grows_to(*tape),
            q@.len() >= N_EMBD,
            below(q@, start@.len()),
            wide(rows(keys@)),
            wide(rows(values@)),
            rows_below(rows(keys@), start@.len()),
            rows_below(rows(values@), start@.len()),
            keys@.len() <= values@.len(),
            sq == pick(start@, q@),
            sk == pick_rows(start@, rows(keys@)),
            sv == pick_rows(start@, rows(values@)),
            h <= N_HEAD,
            below(out@, tape@.len()),
            pick(tape@, out@) == attention_exprs(sq, sk, sv, h as nat),
        decreases N_HEAD - h,
    {
        let ghost mid = *tape;
        proof {
            lemma_pick_prefix(start@, mid@, q@);
            lemma_pick_rows_prefix(start@, mid@, rows(keys@));
            lemma_pick_rows_prefix(start@, mid@, rows(values@));
        }
        let mut head = attention_head(tape, q, keys, values, h * HEAD_DIM);
        let ghost one = head@;
        let ghost before = out@;
        proof {
            lemma_pick_prefix(mid@, tape@, before);
        }
        out.append(&mut head);
        h += 1;
        assert(out@ =~= before + one);
        assert(pick(tape@, out@) =~= pick(tape@, before) + pick(tape@, one));
    }
    out
}

/// A longer tape keeps what the matrices stand for.
pub proof fn lemma_weights_prefix(a: Seq<Expr>, b: Seq<Expr>, d: Dict)
    requires
        prefix(a, b),
        dict_below(d, a.len()),
    ensures
        weights_of(b, d) == weights_of(a, d),
        dict_below(d, b.len()),
{
    assert forall|name: Seq<char>| #[trigger] d.contains_key(name) implies pick_rows(b, d[name])
        == pick_rows(a, d[name]) && rows_below(d[name], b.len()) by {
        lemma_pick_rows_prefix(a, b, d[name]);
    }
    assert(weights_of(b, d) =~= weights_of(a, d));
}

/// A longer tape keeps what the keys or values of the layers stand for.
pub proof fn lemma_layers_prefix(a: Seq<Expr>, b: Seq<Expr>, cache: Seq<Matrix>)
    requires
        prefix(a, b),
        forall|l: int| 0 <= l < cache.len() ==> rows_below(rows((#[trigger] cache[l])@), a.len()),
    ensures
        pick_layers(b, cache) == pick_layers(a, cache),
        forall|l: int| 0 <= l < cache.len() ==> rows_below(rows((#[trigger] cache[l])@), b.len()),
{
    assert forall|l: int| 0 <= l < cache.len() implies pick_rows(b, rows((#[trigger] cache[l])@))
        == pick_rows(a, rows(cache[l]@)) && rows_below(rows(cache[l]@), b.len()) by {
        lemma_pick_rows_prefix(a, b, rows(cache[l]@));
    }
    assert(pick_layers(b, cache) =~= pick_layers(a, cache));
}

/// Appends a row to the matrix of one layer.
fn push_row(cache: &mut Vec<Matrix>, li: usize, row: Vec<usize>)
    requires
        li < old(cache)@.len(),
    ensures
        final(cache)@.len() == old(cache)@.len(),
        rows(final(cache)@[li as int]@) == rows(old(cache)@[li as int]@).push(row@),
        forall|l: int|
            0 <= l < old(cache)@.len() && l != li ==> #[trigger] final(cache)@[l] == old(cache)@[l],
{
    let ghost start = cache@[li as int]@;
    cache[li].push(row);
    assert(rows(cache@[li as int]@) =~= rows(start).push(row@));
}

/// The second half of a layer.
pub fn mlp(tape: &mut Tape, x: &Vec<usize>, sd: &StateDict, li: usize) -> (out: Vec<usize>)
    requires
        old(tape).wf(),
        sd.wf(),
        dict_below(sd@, old(tape)@.len()),
        layer_ready(sd@, li as nat),
        below(x@, old(tape)@.len()),
    ensures
        old(tape).gains_all(
            *final(tape),
            out@,
            perceived(pick(old(tape)@, x@), weights_of(old(tape)@, sd@), li as nat),
        ),
{
    let ghost start = *tape;
    let ghost d = sd@;
    let ghost w = weights_of(start@, d);
    let xn = rmsnorm(tape, x);
    proof {
        lemma_weights_prefix(start@, tape@, d);
    }
    let fc1 = layer_name(li, "mlp_fc1");
    assert(d.contains_key(fc1@));
    let hidden = linear(tape, &xn, sd.matrix(fc1.as_str()));
    let active = rectify(tape, &hidden);
    proof {
        lemma_weights_prefix(start@, tape@, d);
    }
    let fc2 = layer_name(li, "mlp_fc2");
    assert(d.contains_key(fc2@));
    let y = linear(tape, &active, sd.matrix(fc2.as_str()));
    proof {
        lemma_pick_prefix(start@, tape@, x@);
    }
    summed(tape, &y, x)
}

/// One layer at one position: extends the layer's keys and values, and returns
/// the vector that leaves the layer.
pub fn transformer_layer(
    tape: &mut Tape,
    x: &Vec<usize>,
    keys: &mut Vec<Matrix>,
    values: &mut Vec<Matrix>,
    sd: &StateDict,
    li: usize,
) -> (out: Vec<usize>)
    requires
        old(tape).wf(),
        sd.wf(),
        li < N_LAYER,
        dict_below(sd@, old(tape)@.len()),
        layer_ready(sd@, li as nat),
        below(x@, old(tape)@.len()),
        cache_wf(old(keys)@, old(values)@, old(tape)@.len()),
    ensures
        cache_wf(final(keys)@, final(values)@, final(tape)@.len()),
        final(keys)@.len() == old(keys)@.len(),
        final(values)@.len() == old(values)@.len(),
        final(keys)@[li as int]@.len() == old(keys)@[li as int]@.len() + 1,
        rows(final(keys)@[li as int]@).drop_last() == rows(old(keys)@[li as int]@),
        final(values)@[li as int]@.len() == old(values)@[li as int]@.len() + 1,
        rows(final(values)@[li as int]@).drop_last() == rows(old(values)@[li as int]@),
        forall|l: int|
            0 <= l < old(keys)@.len() && l != li ==> #[trigger] final(keys)@[l] == old(keys)@[l],
        forall|l: int|
            0 <= l < old(values)@.len() && l != li ==> #[trigger] final(values)@[l] == old(
                values,
            )@[l],
        ({
            let s = Stream {
                x: pick(old(tape)@, x@),
                keys: pick_layers(old(tape)@, old(keys)@),
                values: pick_layers(old(tape)@, old(values)@),
            };
            let t = after_layer(s, weights_of(old(tape)@, sd@), li as nat);
            &&& old(tape).gains_all(*final(tape), out@, t.x)
            &&& pick_layers(final(tape)@, final(keys)@) == t.keys
            &&& pick_layers(final(tape)@, final(values)@) == t.values
        }),
{
    let ghost start = *tape;
    let ghost d = sd@;
    let ghost w = weights_of(start@, d);
    let ghost k0 = keys@;
    let ghost v0 = values@;
    let ghost sx = pick(start@, x@);
    let ghost sk = pick_layers(start@, k0);
    let ghost sv = pick_layers(start@, v0);
    let xn = rmsnorm(tape, x);
    let ghost t1 = *tape;
    proof {
        lemma_weights_prefix(start@, t1@, d);
    }
    let wq = layer_name(li, "attn_wq");
    assert(d.contains_key(wq@));
    let q = linear(tape, &xn, sd.matrix(wq.as_str()));
    let ghost t2 = *tape;
    proof {
        lemma_weights_prefix(start@, t2@, d);
        lemma_pick_prefix(t1@, t2@, xn@);
    }
    let wk = layer_name(li, "attn_wk");
    assert(d.contains_key(wk@));
    let k = linear(tape, &xn, sd.matrix(wk.as_str()));
    let ghost t3 = *tape;
    proof {
        lemma_weights_prefix(start@, t3@, d);
        lemma_pick_prefix(t1@, t3@, xn@);
    }
    let wv = layer_name(li, "attn_wv");
    assert(d.contains_key(wv@));
    let v = linear(tape, &xn, sd.matrix(wv.as_str()));
    let ghost t4 = *tape;
    let ghost new_key = projected(sx, w, li as nat, "attn_wk"@);
    let ghost new_value = projected(sx, w, li as nat, "attn_wv"@);
    let ghost ks = k@;
    let ghost vs = v@;
    proof {
        lemma_weights_prefix(start@, t4@, d);
        lemma_pick_prefix(t2@, t4@, q@);
        lemma_pick_prefix(t3@, t4@, ks);
        lemma_layers_prefix(start@, t4@, k0);
        lemma_layers_prefix(start@, t4@, v0);
        assert(pick(t4@, ks) == new_key);
        assert(pick(t4@, vs) == new_value);
        assert(ks.len() == new_key.len());
        assert(vs.len() == new_value.len());
        assert(q@.len() == projected(sx, w, li as nat, "attn_wq"@).len());
    }
    push_row(keys, li, k);
    push_row(values, li, v);
    let ghost k1 = keys@;
    let ghost v1 = values@;
    proof {
        lemma_pushed_layers(t4@, k0, k1, li as int, ks);
        lemma_pushed_layers(t4@, v0, v1, li as int, vs);
    }
    let attended_to = attention(tape, &q, &keys[li], &values[li]);
    proof {
        lemma_weights_prefix(start@, tape@, d);
    }
    let wo = layer_name(li, "attn_wo");
    assert(d.contains_key(wo@));
    let y = linear(tape, &attended_to, sd.matrix(wo.as_str()));
    proof {
        lemma_pick_prefix(start@, tape@, x@);
    }
    let z = summed(tape, &y, x);
    proof {
        lemma_weights_prefix(start@, tape@, d);
    }
    let ghost zs = pick(tape@, z@);
    let out = mlp(tape, &z, sd, li);
    proof {
        lemma_layers_prefix(t4@, tape@, k1);
        lemma_layers_prefix(t4@, tape@, v1);
        let ak = sk[li as int].push(new_key);
        let av = sv[li as int].push(new_value);
        assert(pick_layers(t4@, k1)[li as int] == ak);
        assert(pick_layers(t4@, v1)[li as int] == av);
        let t = after_layer(Stream { x: sx, keys: sk, values: sv }, w, li as nat);
        assert(pick_layers(tape@, k1) == t.keys);
        assert(pick_layers(tape@, v1) == t.values);
        assert(rows(k1[li as int]@).drop_last() =~= rows(k0[li as int]@));
        assert(rows(v1[li as int]@).drop_last() =~= rows(v0[li as int]@));
        assert(zs == attended(sx, ak, av, w, li as nat));
        assert(pick(tape@, out@) == t.x);
    }
    out
}

/// What the keys or values of the layers are after one of them got a row.
proof fn lemma_pushed_layers(
    s: Seq<Expr>,
    a: Seq<Matrix>,
    b: Seq<Matrix>,
    li: int,
    row: Seq<usize>,
)
    requires
        0 <= li < a.len(),
        a.len() == b.len(),
        rows(b[li]@) == rows(a[li]@).push(row),
        forall|l: int| 0 <= l < a.len() && l != li ==> #[trigger] b[l] == a[l],
        forall|l: int| 0 <= l < a.len() ==> rows_below(rows((#[trigger] a[l])@), s.len()),
        below(row, s.len()),
    ensures
        pick_layers(s, b) == pick_layers(s, a).update(li, pick_layers(s, a)[li].push(pick(s, row))),
        forall|l: int| 0 <= l < b.len() ==> rows_below(rows((#[trigger] b[l])@), s.len()),
        wide(rows(a[li]@)) && row.len() >= N_EMBD ==> wide(rows(b[li]@)),
        b[li]@.len() == a[li]@.len() + 1,
{
    let x = rows(a[li]@);
    let y = rows(b[li]@);
    assert(y.len() == x.len() + 1);
    assert forall|r: int| 0 <= r < y.len() implies below(#[trigger] y[r], s.len()) by {
        if r < x.len() {
            assert(y[r] == x[r]);
        }
    }
    if wide(x) && row.len() >= N_EMBD {
        assert forall|r: int| 0 <= r < y.len() implies (#[trigger] y[r]).len() >= N_EMBD by {
            if r < x.len() {
                assert(y[r] == x[r]);
            }
        }
    }
    assert(pick_rows(s, y) =~= pick_rows(s, x).push(pick(s, row)));
    assert(pick_layers(s, b) =~= pick_layers(s, a).update(
        li,
        pick_layers(s, a)[li].push(pick(s, row)),
    ));
}

/// The forward pass at one position: the logits for the next token, given the
/// token at this position and the keys and values of the earlier ones.
pub fn gpt(
    tape: &mut Tape,
    token_id: usize,
    pos_id: usize,
    keys: &mut Vec<Matrix>,
    values: &mut Vec<Matrix>,
    sd: &StateDict,
) -> (logits: Vec<usize>)
    requires
        old(tape).wf(),
        sd.wf(),
        dict_below(sd@, old(tape)@.len()),
        model_ready(sd@),
        token_id < sd@["wte"@].len(),
        pos_id < sd@["wpe"@].len(),
        cache_wf(old(keys)@, old(values)@, old(tape)@.len()),
    ensures
        cache_wf(final(keys)@, final(values)@, final(tape)@.len()),
        one_row_more(old(keys)@, final(keys)@, N_LAYER as nat),
        one_row_more(old(values)@, final(values)@, N_LAYER as nat),
        ({
            let w = weights_of(old(tape)@, sd@);
            let s = gpt_stream(
                token_id as int,
                pos_id as int,
                pick_layers(old(tape)@, old(keys)@),
                pick_layers(old(tape)@, old(values)@),
                w,
            );
            &&& old(tape).gains_all(*final(tape), logits@, head_of(s, w))
            &&& pick_layers(final(tape)@, final(keys)@) == s.keys
            &&& pick_layers(final(tape)@, final(values)@) == s.values
        }),
{
    let ghost start = *tape;
    let ghost d = sd@;
    let ghost w = weights_of(start@, d);
    let wte = sd.matrix("wte");
    let wpe = sd.matrix("wpe");
    let tok_emb = &wte[token_id];
    let pos_emb = &wpe[pos_id];
    proof {
        assert(rows_below(d["wte"@], start@.len()));
        assert(rows_below(d["wpe"@], start@.len()));
        assert(rows(wte@)[token_id as int] == tok_emb@);
        assert(rows(wpe@)[pos_id as int] == pos_emb@);
    }
    let sum = summed(tape, tok_emb, pos_emb);
    let mut x = rmsnorm(tape, &sum);
    let ghost entry = Stream {
        x: embedded(token_id as int, pos_id as int, w),
        keys: pick_layers(start@, keys@),
        values: pick_layers(start@, values@),
    };
    proof {
        lemma_layers_prefix(start@, tape@, keys@);
        lemma_layers_prefix(start@, tape@, values@);
    }
    let ghost k0 = keys@;
    let ghost v0 = values@;
    let mut li: usize = 0;
    while li < N_LAYER
        invariant
            k0.len() >= N_LAYER,
            v0.len() >= N_LAYER,
            one_row_more(k0, keys@, li as nat),
            one_row_more(v0, values@, li as nat),
            tape.wf(),
            start.grows_to(*tape),
            sd.wf(),
            d == sd@,
            dict_below(d, start@.len()),
            model_ready(d),
            w == weights_of(start@, d),
            li <= N_LAYER,
            cache_wf(keys@, values@, tape@.len()),
            below(x@, tape@.len()),
            pick(tape@, x@) == after_layers(entry, w, li as nat).x,
            pick_layers(tape@, keys@) == after_layers(entry, w, li as nat).keys,
            pick_layers(tape@, values@) == after_layers(entry, w, li as nat).values,
        decreases N_LAYER - li,
    {
        proof {
            lemma_weights_prefix(start@, tape@, d);
            assert(layer_ready(d, li as nat));
        }
        x = transformer_layer(tape, &x, keys, values, sd, li);
        li += 1;
    }
    let ghost last = *tape;
    proof {
        lemma_weights_prefix(start@, last@, d);
    }
    let logits = linear(tape, &x, sd.matrix("lm_head"));
    proof {
        lemma_layers_prefix(last@, tape@, keys@);
        lemma_layers_prefix(last@, tape@, values@);
    }
    logits
}

/// The weights of a model are what its entries stand for, entry by entry.
pub proof fn law_weights(values: Seq<Expr>, d: Dict, name: Seq<char>, r: int, c: int)
    requires
        d.contains_key(name),
        0 <= r < d[name].len(),
        0 <= c < d[name][r].len(),
    ensures
        weights_of(values, d).dom() == d.dom(),
        weights_of(values, d)[name].len() == d[name].len(),
        weights_of(values, d)[name][r].len() == d[name][r].len(),
        weights_of(values, d)[name][r][c] == values[d[name][r][c] as int],
{
    assert(weights_of(values, d).dom() =~= d.dom());
}

} // verus!
