//! When a model can be used: it has all its matrices, and they have rows for all
//! tokens and positions.

use vstd::prelude::*;

use crate::checkpoint::{flat, lemma_flat_below, load_layout, loadable, parsed, saved, shape_of};
use crate::config::{BLOCK_SIZE, N_EMBD, N_LAYER};
use crate::gpt::{dict_below, layer_ready, model_ready};
use crate::params::{
    grid, init_layout, init_size, laid_out, layer_layout, layer_name, layer_part, layers_layout,
    lemma_init_size, lemma_laid_out_names, lemma_layer_names, lemma_layers_layout,
    lemma_part_names, outer_layout, size_of, Dict, Model, Shape, StateDict,
};
use crate::round_trip::{
    clean, given_back, has_shape, law_save_then_load, lemma_saved_size, names_of, solid_word,
    solid_words, well_shaped, writable,
};
use crate::sampler::Sampler;
use crate::tape::{below, pick, rows_below};
use crate::text::{decimal, has_part, lemma_decimal_digits, part_at};
use crate::tokenizer::{
    covered, encoded, first_place, lemma_few_characters, lemma_first_place, Tokenizer,
};
use crate::train::trainable;

verus! {

/// Whether a model can be used with a vocabulary.
pub open spec fn usable(d: Dict, vocab_size: nat) -> bool {
    &&& model_ready(d)
    &&& d["wte"@].len() == vocab_size
    &&& d["wpe"@].len() == BLOCK_SIZE
    &&& d["lm_head"@].len() == vocab_size
}

/// Whether there is a matrix under a name, with at least the given number of rows.
fn has_rows(sd: &StateDict, name: &str, at_least: usize) -> (b: bool)
    requires
        sd.wf(),
    ensures
        b == (sd@.contains_key(name@) && sd@[name@].len() >= at_least),
{
    match sd.get(name) {
        Some(m) => m.len() >= at_least,
        None => false,
    }
}

/// Whether there is a matrix under a name, with just the given number of rows.
fn has_just(sd: &StateDict, name: &str, count: usize) -> (b: bool)
    requires
        sd.wf(),
    ensures
        b == (sd@.contains_key(name@) && sd@[name@].len() == count),
{
    match sd.get(name) {
        Some(m) => m.len() == count,
        None => false,
    }
}

/// Whether a model can be used with a vocabulary.
pub fn is_usable(sd: &StateDict, vocab_size: usize) -> (b: bool)
    requires
        sd.wf(),
    ensures
        b == usable(sd@, vocab_size as nat),
{
    let outer = has_just(sd, "wte", vocab_size) && has_just(sd, "wpe", BLOCK_SIZE) && has_just(
        sd,
        "lm_head",
        vocab_size,
    );
    let mut li: usize = 0;
    while li < N_LAYER
        invariant
            sd.wf(),
            li <= N_LAYER,
            forall|l: nat| l < li ==> #[trigger] layer_ready(sd@, l),
        decreases N_LAYER - li,
    {
        let ready = has_rows(sd, layer_name(li, "attn_wq").as_str(), N_EMBD) && has_rows(
            sd,
            layer_name(li, "attn_wk").as_str(),
            N_EMBD,
        ) && has_rows(sd, layer_name(li, "attn_wv").as_str(), N_EMBD) && has_rows(
            sd,
            layer_name(li, "attn_wo").as_str(),
            0,
        ) && has_rows(sd, layer_name(li, "mlp_fc1").as_str(), 0) && has_rows(
            sd,
            layer_name(li, "mlp_fc2").as_str(),
            0,
        );
        assert(ready == layer_ready(sd@, li as nat));
        if !ready {
            return false;
        }
        li += 1;
    }
    outer
}

/// A model that can be used can be trained on every document that has tokens.
pub proof fn law_usable_is_trainable(d: Dict, tok: Tokenizer, doc: Seq<char>)
    requires
        usable(d, tok.vocab_size as nat),
        tok.wf(),
        covered(tok.uchars@, doc),
    ensures
        trainable(d, encoded(tok.uchars@, tok.bos, doc)),
{
    let tokens = encoded(tok.uchars@, tok.bos, doc);
    assert forall|i: int| 0 <= i < tokens.len() implies (#[trigger] tokens[i])
        < tok.vocab_size by {
        if 0 < i <= doc.len() {
            assert(tok.uchars@.contains(doc[i - 1]));
            lemma_first_place(tok.uchars@, doc[i - 1]);
            assert(tokens[i] == first_place(tok.uchars@, doc[i - 1]) as usize);
        }
    }
}

/// A model that can be used can go on with every document that is not complete.
pub proof fn law_usable_can_sample(d: Dict, tok: Tokenizer, s: Sampler)
    requires
        usable(d, tok.vocab_size as nat),
        s.wf(tok),
        !s.finished,
        s.passed + 1 == s.tokens@.len(),
    ensures
        s.tokens@.last() < d["wte"@].len(),
        s.passed < d["wpe"@].len(),
{
}

/// A grid takes the positions from its start on.
proof fn lemma_grid_below(start: nat, nrows: nat, ncols: nat)
    requires
        start + nrows * ncols <= usize::MAX,
    ensures
        rows_below(grid(start, nrows, ncols), start + nrows * ncols),
{
    let m = grid(start, nrows, ncols);
    assert forall|r: int| 0 <= r < m.len() implies below(
        #[trigger] m[r],
        start + nrows * ncols,
    ) by {
        assert forall|c: int| 0 <= c < m[r].len() implies (#[trigger] m[r][c]) < start + nrows
            * ncols by {
            assert(0 <= r * ncols + c < nrows * ncols) by (nonlinear_arith)
                requires
                    0 <= r < nrows,
                    0 <= c < ncols,
            ;
        }
    }
}

/// What is laid out takes the positions from the first one on.
pub proof fn lemma_laid_out_below(layout: Seq<Shape>)
    requires
        size_of(layout) <= usize::MAX,
    ensures
        dict_below(laid_out(layout), size_of(layout)),
        laid_out(layout).dom().finite(),
    decreases layout.len(),
{
    if layout.len() > 0 {
        let rest = layout.drop_last();
        let last = layout.last();
        let more: nat = last.rows * last.cols;
        lemma_laid_out_below(rest);
        lemma_grid_below(size_of(rest), last.rows, last.cols);
        assert forall|name: Seq<char>| #[trigger] laid_out(layout).contains_key(name) implies
            rows_below(laid_out(layout)[name], size_of(layout)) by {
            if name != last.name {
                let m = laid_out(rest)[name];
                assert(laid_out(rest).contains_key(name));
                assert forall|r: int| 0 <= r < m.len() implies below(
                    #[trigger] m[r],
                    size_of(layout),
                ) by {
                    assert(below(m[r], size_of(rest)));
                }
            }
        }
    }
}

/// The parameters of a model are on its tape.
pub proof fn law_parameters_on_tape(model: Model, layout: Seq<Shape>)
    requires
        model.holds(layout),
    ensures
        dict_below(model.params@, model.tape@.len()),
{
    crate::tape::lemma_exprs_len(model.tape.nodes@);
    assert(model.tape.nodes@.len() == model.tape.nodes.len());
    lemma_laid_out_below(layout);
}

/// What the names of the matrices of a layer start with.
spec fn layer_prefix(li: nat) -> Seq<char> {
    "layer"@ + decimal(li) + "."@
}

proof fn lemma_layer_prefix(li: nat)
    ensures
        forall|i: int|
            0 <= i < layer_prefix(li).len() ==> (#[trigger] layer_prefix(li)[i]) != 'm'
                && layer_prefix(li)[i] != ' ' && layer_prefix(li)[i] != '\n',
{
    let head = layer_prefix(li);
    lemma_decimal_digits(li);
    reveal_strlit("layer");
    reveal_strlit(".");
    assert forall|i: int| 0 <= i < head.len() implies (#[trigger] head[i]) != 'm' && head[i] != ' '
        && head[i] != '\n' by {
        if i < 5 {
            assert(head[i] == "layer"@[i]);
        } else if i < 5 + decimal(li).len() {
            assert(head[i] == decimal(li)[i - 5]);
        } else {
            assert(head[i] == '.');
        }
    }
}

/// Where in the name of a matrix of a layer a word like `mlp_fc1` can stand.
proof fn lemma_part_in_name(li: nat, part: Seq<char>, word: Seq<char>)
    requires
        part.len() == 7,
        word.len() == 7,
        word[0] == 'm',
    ensures
        has_part(layer_part(li, part), word) <==> part == word,
{
    let name = layer_part(li, part);
    let head = layer_prefix(li);
    let p = head.len() as int;
    lemma_layer_prefix(li);
    assert(name == head + part);
    assert(name.subrange(p, p + 7) =~= part);
    if part == word {
        assert(part_at(name, word, p));
    }
    if has_part(name, word) {
        let i = choose|i: int| part_at(name, word, i);
        assert(name.subrange(i, i + 7)[0] == name[i]);
        if i < p {
            assert(name[i] == head[i]);
        }
        assert(i == p);
    }
}

/// The parts of a layer, in order.
spec fn parts() -> Seq<Seq<char>> {
    seq!["attn_wq"@, "attn_wk"@, "attn_wv"@, "attn_wo"@, "mlp_fc1"@, "mlp_fc2"@]
}

proof fn lemma_parts(k: int)
    requires
        0 <= k < 6,
    ensures
        parts()[k].len() == 7,
        clean(parts()[k]),
        parts()[k] == "mlp_fc1"@ <==> k == 4,
        parts()[k] == "mlp_fc2"@ <==> k == 5,
        "mlp_fc1"@.len() == 7,
        "mlp_fc2"@.len() == 7,
        "mlp_fc1"@[0] == 'm',
        "mlp_fc2"@[0] == 'm',
{
    reveal_strlit("attn_wq");
    reveal_strlit("attn_wk");
    reveal_strlit("attn_wv");
    reveal_strlit("attn_wo");
    reveal_strlit("mlp_fc1");
    reveal_strlit("mlp_fc2");
    assert("attn_wq"@[0] == 'a' && "attn_wk"@[0] == 'a' && "attn_wv"@[0] == 'a' && "attn_wo"@[0]
        == 'a' && "mlp_fc1"@[0] == 'm' && "mlp_fc2"@[0] == 'm');
    assert("mlp_fc1"@[6] == '1' && "mlp_fc2"@[6] == '2');
}

/// The shapes of the matrices of a layer are those that their names call for, and
/// the names can stand in a checkpoint.
proof fn lemma_layer_shapes(li: nat, k: int, vocab_size: nat)
    requires
        0 <= k < 6,
    ensures
        ({
            let m = layer_layout(li)[k];
            &&& (m.rows, m.cols) == shape_of(m.name, vocab_size)
            &&& clean(m.name)
        }),
{
    let part = parts()[k];
    let m = layer_layout(li)[k];
    let head = layer_prefix(li);
    lemma_parts(k);
    lemma_layer_names();
    lemma_layer_prefix(li);
    assert(m.name == layer_part(li, part));
    assert(m.name == head + part);
    lemma_part_in_name(li, part, "mlp_fc1"@);
    lemma_part_in_name(li, part, "mlp_fc2"@);
    assert forall|i: int| 0 <= i < m.name.len() implies (#[trigger] m.name[i]) != ' ' && m.name[i]
        != '\n' by {
        if i < head.len() {
            assert(m.name[i] == head[i]);
        } else {
            assert(m.name[i] == part[i - head.len()]);
        }
    }
}

/// The shapes of the matrices of a new model are those that their names call for,
/// and the names can stand in a checkpoint.
proof fn lemma_init_shapes(vocab_size: nat, i: int)
    requires
        0 <= i < init_layout(vocab_size).len(),
    ensures
        ({
            let m = init_layout(vocab_size)[i];
            &&& (m.rows, m.cols) == shape_of(m.name, vocab_size)
            &&& clean(m.name)
        }),
{
    lemma_layer_names();
    reveal_strlit("wte");
    reveal_strlit("wpe");
    reveal_strlit("lm_head");
    let m = init_layout(vocab_size)[i];
    if i >= 3 {
        let n = N_LAYER as nat;
        assert(m == layers_layout(n)[i - 3]);
        lemma_layers_layout(n, i - 3);
        let (l, k) = choose|l: nat, k: int|
            l < n && 0 <= k < 6 && layers_layout(n)[i - 3] == #[trigger] layer_layout(l)[k];
        lemma_layer_shapes(l, k, vocab_size);
    } else {
        assert(m == outer_layout(vocab_size)[i]);
    }
}

/// Matrices that are laid out have the shapes of the layout.
proof fn lemma_well_shaped(layout: Seq<Shape>, vocab_size: nat)
    requires
        forall|i: int|
            0 <= i < layout.len() ==> ((#[trigger] layout[i]).rows, layout[i].cols) == shape_of(
                layout[i].name,
                vocab_size,
            ),
    ensures
        well_shaped(laid_out(layout), vocab_size),
    decreases layout.len(),
{
    if layout.len() > 0 {
        let rest = layout.drop_last();
        assert(layout[layout.len() - 1] == layout.last());
        assert forall|i: int| 0 <= i < rest.len() implies ((#[trigger] rest[i]).rows, rest[i].cols)
            == shape_of(rest[i].name, vocab_size) by {
            assert(layout[i] == rest[i]);
        }
        lemma_well_shaped(rest, vocab_size);
        assert forall|name: Seq<char>| #[trigger] laid_out(layout).contains_key(name) implies
            has_shape(
            laid_out(layout)[name],
            shape_of(name, vocab_size).0,
            shape_of(name, vocab_size).1,
        ) by {
            if name != layout.last().name {
                assert(laid_out(rest).contains_key(name));
            }
        }
    }
}

/// Where the matrices of the layers stand.
proof fn lemma_layer_at(n: nat, li: nat, k: int)
    requires
        li < n,
        0 <= k < 6,
    ensures
        layers_layout(n).len() == 6 * n,
        layers_layout(n)[6 * li + k] == layer_layout(li)[k],
    decreases n,
{
    lemma_layers_len((n - 1) as nat);
    if li < n - 1 {
        lemma_layer_at((n - 1) as nat, li, k);
    }
}

/// The parts of a layer have different names.
proof fn lemma_parts_differ(k: int, m: int)
    requires
        0 <= k < 6,
        0 <= m < 6,
        parts()[k] == parts()[m],
    ensures
        k == m,
{
    lemma_part_names();
}

/// The matrices of a new model have different names.
proof fn lemma_init_names_differ(vocab_size: nat)
    ensures
        names_of(init_layout(vocab_size)).no_duplicates(),
{
    let layout = init_layout(vocab_size);
    let names = names_of(layout);
    let n = N_LAYER as nat;
    lemma_layer_names();
    lemma_layers_len(n);
    assert forall|i: int, j: int| 0 <= i < names.len() && 0 <= j < names.len() && i != j implies
        names[i] != names[j] by {
        if i >= 3 {
            lemma_layer_at(n, ((i - 3) / 6) as nat, (i - 3) % 6);
            assert(names[i] == layer_part(((i - 3) / 6) as nat, parts()[(i - 3) % 6]));
        }
        if j >= 3 {
            lemma_layer_at(n, ((j - 3) / 6) as nat, (j - 3) % 6);
            assert(names[j] == layer_part(((j - 3) / 6) as nat, parts()[(j - 3) % 6]));
        }
        if i >= 3 && j >= 3 && names[i] == names[j] {
            lemma_parts_differ((i - 3) % 6, (j - 3) % 6);
        }
    }
}

proof fn lemma_layers_len(n: nat)
    ensures
        layers_layout(n).len() == 6 * n,
    decreases n,
{
    if n > 0 {
        lemma_layers_len((n - 1) as nat);
    }
}

/// Whether there is a matrix under every name that a model needs.
pub open spec fn complete(d: Dict) -> bool {
    &&& d.contains_key("wte"@)
    &&& d.contains_key("wpe"@)
    &&& d.contains_key("lm_head"@)
    &&& forall|li: nat, k: int|
        li < N_LAYER && 0 <= k < 6 ==> d.contains_key((#[trigger] layer_layout(li)[k]).name)
}

/// A model that has all its matrices, in the shapes that their names call for, can
/// be used.
pub proof fn law_complete_is_usable(d: Dict, vocab_size: nat)
    requires
        complete(d),
        well_shaped(d, vocab_size),
    ensures
        usable(d, vocab_size),
{
    lemma_layer_names();
    assert forall|li: nat| li < N_LAYER implies #[trigger] layer_ready(d, li) by {
        let parts = layer_layout(li);
        lemma_layer_shapes(li, 0, vocab_size);
        lemma_layer_shapes(li, 1, vocab_size);
        lemma_layer_shapes(li, 2, vocab_size);
        assert(d.contains_key(parts[0].name));
        assert(d.contains_key(parts[1].name));
        assert(d.contains_key(parts[2].name));
        assert(d.contains_key(parts[3].name));
        assert(d.contains_key(parts[4].name));
        assert(d.contains_key(parts[5].name));
    }
}

/// A new model has all its matrices, in the shapes that their names call for, and
/// can be used.
pub proof fn law_new_model_is_usable(vocab_size: nat)
    ensures
        complete(laid_out(init_layout(vocab_size))),
        well_shaped(laid_out(init_layout(vocab_size)), vocab_size),
        usable(laid_out(init_layout(vocab_size)), vocab_size),
{
    let layout = init_layout(vocab_size);
    let d = laid_out(layout);
    assert forall|i: int| 0 <= i < layout.len() implies ((#[trigger] layout[i]).rows, layout[i].cols)
        == shape_of(layout[i].name, vocab_size) by {
        lemma_init_shapes(vocab_size, i);
    }
    lemma_well_shaped(layout, vocab_size);
    assert(layout[0].name == "wte"@);
    lemma_laid_out_names(layout, "wte"@);
    assert(layout[1].name == "wpe"@);
    lemma_laid_out_names(layout, "wpe"@);
    assert(layout[2].name == "lm_head"@);
    lemma_laid_out_names(layout, "lm_head"@);
    assert forall|li: nat, k: int| li < N_LAYER && 0 <= k < 6 implies d.contains_key(
        (#[trigger] layer_layout(li)[k]).name,
    ) by {
        lemma_layer_at(N_LAYER as nat, li, k);
        assert(layout[3 + 6 * li + k] == layers_layout(N_LAYER as nat)[6 * li + k]);
        lemma_laid_out_names(layout, layer_layout(li)[k].name);
    }
    law_complete_is_usable(d, vocab_size);
}

/// The parameters of a new model can be numbered for every tokenizer, since there are
/// only so many characters.
pub proof fn law_vocabulary_fits(tok: Tokenizer)
    requires
        tok.wf(),
    ensures
        init_size(tok.vocab_size as nat) <= usize::MAX,
{
    let n = tok.uchars@.len();
    if n > 0 {
        lemma_few_characters(tok.uchars@, (n - 1) as nat);
    }
}

/// A new model can be saved, and so can what training makes of it, since that has the
/// same matrices: whatever the texts of its parameters, as long as they are words, its
/// checkpoint can be loaded. The loaded model has as many parameters, can be used, and
/// reads every entry from the very text that was written for it.
pub proof fn law_new_model_can_be_saved(vocab_size: nat, rendered: Seq<Seq<char>>)
    requires
        init_size(vocab_size) <= usize::MAX,
        rendered.len() == init_size(vocab_size),
        solid_words(rendered),
    ensures
        ({
            let d = laid_out(init_layout(vocab_size));
            let ls = parsed(saved(d, rendered));
            let layout = load_layout(ls, vocab_size);
            &&& d.dom().finite()
            &&& writable(d, rendered)
            &&& loadable(ls, vocab_size)
            &&& ls.len() == init_layout(vocab_size).len() <= usize::MAX
            &&& size_of(layout) == init_size(vocab_size)
            &&& laid_out(layout).dom() == d.dom()
            &&& well_shaped(laid_out(layout), vocab_size)
            &&& usable(laid_out(layout), vocab_size)
            &&& given_back(d, rendered, vocab_size)
        }),
{
    let layout = init_layout(vocab_size);
    let d = laid_out(layout);
    lemma_init_size(vocab_size);
    lemma_laid_out_below(layout);
    law_new_model_is_usable(vocab_size);
    assert forall|name: Seq<char>| #[trigger] d.contains_key(name) implies clean(name)
        && solid_words(pick(rendered, flat(d[name]))) by {
        lemma_laid_out_names(layout, name);
        let i = choose|i: int| 0 <= i < layout.len() && (#[trigger] layout[i]).name == name;
        lemma_init_shapes(vocab_size, i);
        let ids = flat(d[name]);
        lemma_flat_below(d[name], rendered.len());
        assert forall|j: int| 0 <= j < ids.len() implies solid_word(
            #[trigger] pick(rendered, ids)[j],
        ) by {
            assert(ids[j] < rendered.len());
        }
    }
    assert forall|i: int| 0 <= i < layout.len() implies ((#[trigger] layout[i]).rows, layout[i].cols)
        == shape_of(layout[i].name, vocab_size) by {
        lemma_init_shapes(vocab_size, i);
    }
    lemma_init_names_differ(vocab_size);
    lemma_saved_size(layout, rendered, vocab_size);
    lemma_layers_len(N_LAYER as nat);
    law_save_then_load(d, rendered, vocab_size);
    let loaded = laid_out(load_layout(parsed(saved(d, rendered)), vocab_size));
    assert(complete(loaded)) by {
        assert forall|li: nat, k: int| li < N_LAYER && 0 <= k < 6 implies loaded.contains_key(
            (#[trigger] layer_layout(li)[k]).name,
        ) by {
            assert(d.contains_key(layer_layout(li)[k].name));
        }
    }
    law_complete_is_usable(loaded, vocab_size);
}

/// A model can be used just where it has all its matrices, with rows for the tokens and
/// the positions, no more and no less, and for all heads; so it can be used with one size
/// of the vocabulary only.
pub proof fn law_usable(d: Dict, vocab_size: nat, other: nat)
    ensures
        usable(d, vocab_size) <==> {
            &&& d.contains_key("wte"@) && d["wte"@].len() == vocab_size
            &&& d.contains_key("wpe"@) && d["wpe"@].len() == BLOCK_SIZE
            &&& d.contains_key("lm_head"@) && d["lm_head"@].len() == vocab_size
            &&& forall|l: nat|
                l < N_LAYER ==> d.contains_key(#[trigger] layer_part(l, "attn_wq"@))
                    && d.contains_key(layer_part(l, "attn_wk"@)) && d.contains_key(
                    layer_part(l, "attn_wv"@),
                ) && d.contains_key(layer_part(l, "attn_wo"@)) && d.contains_key(
                    layer_part(l, "mlp_fc1"@),
                ) && d.contains_key(layer_part(l, "mlp_fc2"@)) && d[layer_part(l, "attn_wq"@)].len()
                    >= N_EMBD && d[layer_part(l, "attn_wk"@)].len() >= N_EMBD && d[layer_part(
                    l,
                    "attn_wv"@,
                )].len() >= N_EMBD
        },
        usable(d, vocab_size) && usable(d, other) ==> vocab_size == other,
{
    if usable(d, vocab_size) {
        assert forall|l: nat| l < N_LAYER implies d.contains_key(
            #[trigger] layer_part(l, "attn_wq"@),
        ) && layer_ready(d, l) by {
            assert(layer_ready(d, l));
        }
    } else if model_ready(d) {
        assert(d["wte"@].len() != vocab_size || d["wpe"@].len() != BLOCK_SIZE || d["lm_head"@].len()
            != vocab_size);
    } else if d.contains_key("wte"@) && d.contains_key("wpe"@) && d.contains_key("lm_head"@) {
        let l = choose|l: nat| l < N_LAYER && !#[trigger] layer_ready(d, l);
        assert(layer_part(l, "attn_wq"@) == layer_part(l, "attn_wq"@));
    }
}

} // verus!
