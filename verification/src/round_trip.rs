//! What is saved is what is loaded.

use vstd::prelude::*;

use crate::checkpoint::{
    flat, is_listing, joined, lemma_before_irreflexive, lemma_listing_exists, line_fits, line_of, listing,
    load_layout, loadable, parsed, parsed_line, saved, shape_of, sources_of, text_of, Parsed,
};
use crate::gpt::dict_below;
use crate::params::{grid, laid_out, lemma_laid_out_names, size_of, Dict, Shape};
use crate::tape::pick;
use crate::text::{
    before, blank, is_space, leading, lemma_leading, lemma_leading_is, lines_of, other_than, solid,
    trim_start, without_return, words_of,
};

verus! {

/// Whether a name can stand on a line of a checkpoint.
pub open spec fn clean(name: Seq<char>) -> bool {
    forall|i: int| 0 <= i < name.len() ==> (#[trigger] name[i]) != ' ' && name[i] != '\n'
}

/// Whether a text can stand as a word of a checkpoint.
pub open spec fn solid_word(w: Seq<char>) -> bool {
    w.len() > 0 && forall|i: int| 0 <= i < w.len() ==> !is_space(#[trigger] w[i])
}

/// Whether all texts can stand as words of a checkpoint.
pub open spec fn solid_words(ws: Seq<Seq<char>>) -> bool {
    forall|i: int| 0 <= i < ws.len() ==> solid_word(#[trigger] ws[i])
}

/// Whether a matrix has the given numbers of rows and columns.
pub open spec fn has_shape(m: Seq<Seq<usize>>, nrows: nat, ncols: nat) -> bool {
    m.len() == nrows && forall|r: int| 0 <= r < nrows ==> (#[trigger] m[r]).len() == ncols
}

proof fn lemma_rest_solid(ws: Seq<Seq<char>>)
    requires
        solid_words(ws),
        ws.len() > 0,
    ensures
        solid_words(ws.drop_first()),
        solid_word(ws[0]),
{
    let rest = ws.drop_first();
    assert forall|i: int| 0 <= i < rest.len() implies solid_word(#[trigger] rest[i]) by {
        assert(ws[i + 1] == rest[i]);
    }
}

/// Joined words hold only spaces and what is in the words, and end with a word.
proof fn lemma_joined_chars(ws: Seq<Seq<char>>)
    requires
        solid_words(ws),
    ensures
        forall|i: int|
            0 <= i < joined(ws).len() ==> (#[trigger] joined(ws)[i]) == ' ' || !is_space(
                joined(ws)[i],
            ),
        ws.len() > 0 ==> joined(ws).len() > 0 && !is_space(joined(ws).last()),
    decreases ws.len(),
{
    if ws.len() == 1 {
        assert(solid_word(ws[0]));
    } else if ws.len() > 1 {
        lemma_rest_solid(ws);
        lemma_joined_chars(ws.drop_first());
        let head = ws[0];
        let tail = joined(ws.drop_first());
        let all = joined(ws);
        assert(all == head + seq![' '] + tail);
        assert forall|i: int| 0 <= i < all.len() implies (#[trigger] all[i]) == ' ' || !is_space(
            all[i],
        ) by {
            if i < head.len() {
                assert(all[i] == head[i]);
            } else if i > head.len() {
                assert(all[i] == tail[i - head.len() - 1]);
            }
        }
        assert(all.last() == tail.last());
    }
}

/// A space at the start adds no word.
proof fn lemma_words_after_space(s: Seq<char>)
    ensures
        words_of(seq![' '] + s) == words_of(s),
{
    let t = seq![' '] + s;
    lemma_leading(s, blank());
    let n = leading(s, blank());
    assert forall|i: int| 0 <= i < n + 1 implies (blank())(#[trigger] t[i]) by {
        if i > 0 {
            assert(t[i] == s[i - 1]);
        }
    }
    if n < s.len() {
        assert(t[n as int + 1] == s[n as int]);
    }
    lemma_leading_is(t, blank(), n + 1);
    assert(trim_start(t) =~= trim_start(s));
}

/// The words of joined words are those words.
proof fn lemma_words_of_joined(ws: Seq<Seq<char>>)
    requires
        solid_words(ws),
    ensures
        words_of(joined(ws)) == ws,
    decreases ws.len(),
{
    if ws.len() == 0 {
        lemma_leading_is(joined(ws), blank(), 0);
        assert(trim_start(joined(ws)).len() == 0);
        assert(words_of(joined(ws)) =~= ws);
    } else {
        lemma_rest_solid(ws);
        let w = ws[0];
        let rest = ws.drop_first();
        let s = joined(ws);
        assert(w.len() > 0 && !is_space(w[0]));
        assert(s[0] == w[0]);
        lemma_leading_is(s, blank(), 0);
        assert(trim_start(s) =~= s);
        if ws.len() == 1 {
            assert(s =~= w);
            lemma_leading_is(s, solid(), w.len());
            assert(s.take(w.len() as int) =~= w);
            let nothing = s.skip(w.len() as int);
            lemma_leading_is(nothing, blank(), 0);
            assert(trim_start(nothing).len() == 0);
            assert(words_of(nothing) =~= Seq::empty());
            assert(words_of(s) =~= ws);
        } else {
            lemma_words_of_joined(rest);
            let tail = seq![' '] + joined(rest);
            assert(s =~= w + tail);
            assert forall|i: int| 0 <= i < w.len() implies (solid())(#[trigger] s[i]) by {
                assert(s[i] == w[i]);
            }
            assert(s[w.len() as int] == ' ');
            lemma_leading_is(s, solid(), w.len());
            assert(s.take(w.len() as int) =~= w);
            assert(s.skip(w.len() as int) =~= tail);
            lemma_words_after_space(joined(rest));
            assert(words_of(s) =~= seq![w] + rest);
            assert(seq![w] + rest =~= ws);
        }
    }
}

/// A line says what it was made from.
proof fn lemma_line(name: Seq<char>, ws: Seq<Seq<char>>)
    requires
        clean(name),
        solid_words(ws),
    ensures
        ({
            let line = name + seq![' '] + joined(ws);
            &&& parsed_line(line) == (Parsed { name, words: ws })
            &&& forall|i: int| 0 <= i < line.len() ==> (#[trigger] line[i]) != '\n'
            &&& without_return(line) == line
        }),
{
    let text = joined(ws);
    let line = name + seq![' '] + text;
    lemma_joined_chars(ws);
    lemma_words_of_joined(ws);
    assert(line[name.len() as int] == ' ');
    assert forall|i: int| 0 <= i < name.len() implies (other_than(' '))(#[trigger] line[i]) by {
        assert(line[i] == name[i]);
    }
    lemma_leading_is(line, other_than(' '), name.len());
    assert(line.take(name.len() as int) =~= name);
    assert(line.skip(name.len() as int + 1) =~= text);
    assert forall|i: int| 0 <= i < line.len() implies (#[trigger] line[i]) != '\n' by {
        if i < name.len() {
            assert(line[i] == name[i]);
        } else if i > name.len() {
            assert(line[i] == text[i - name.len() - 1]);
        }
    }
    if ws.len() > 0 {
        assert(line.last() == text.last());
    } else {
        assert(line.last() == ' ');
    }
}

/// A line feed ends a line.
proof fn lemma_first_line(line: Seq<char>, rest: Seq<char>)
    requires
        forall|i: int| 0 <= i < line.len() ==> (#[trigger] line[i]) != '\n',
        without_return(line) == line,
    ensures
        lines_of(line + seq!['\n'] + rest) == seq![line] + lines_of(rest),
{
    let s = line + seq!['\n'] + rest;
    assert forall|i: int| 0 <= i < line.len() implies (other_than('\n'))(#[trigger] s[i]) by {
        assert(s[i] == line[i]);
    }
    assert(s[line.len() as int] == '\n');
    lemma_leading_is(s, other_than('\n'), line.len());
    assert(s.take(line.len() as int) =~= line);
    assert(s.skip(line.len() as int + 1) =~= rest);
}

/// What the text of some named matrices says.
proof fn lemma_parsed_text(names: Seq<Seq<char>>, d: Dict, rendered: Seq<Seq<char>>)
    requires
        forall|i: int|
            0 <= i < names.len() ==> clean(#[trigger] names[i]) && solid_words(
                pick(rendered, flat(d[names[i]])),
            ),
    ensures
        parsed(text_of(names, d, rendered)).len() == names.len(),
        forall|i: int|
            0 <= i < names.len() ==> #[trigger] parsed(text_of(names, d, rendered))[i] == (Parsed {
                name: names[i],
                words: pick(rendered, flat(d[names[i]])),
            }),
    decreases names.len(),
{
    let all = parsed(text_of(names, d, rendered));
    if names.len() > 0 {
        let name = names[0];
        let ws = pick(rendered, flat(d[name]));
        let rest = names.drop_first();
        assert(clean(names[0]));
        lemma_line(name, ws);
        let line = line_of(name, d[name], rendered);
        let later = text_of(rest, d, rendered);
        lemma_first_line(line, later);
        assert forall|i: int| 0 <= i < rest.len() implies clean(#[trigger] rest[i]) && solid_words(
            pick(rendered, flat(d[rest[i]])),
        ) by {
            assert(names[i + 1] == rest[i]);
        }
        lemma_parsed_text(rest, d, rendered);
        assert(all =~= seq![parsed_line(line)] + parsed(later));
        assert forall|i: int| 0 <= i < names.len() implies #[trigger] all[i] == (Parsed {
            name: names[i],
            words: pick(rendered, flat(d[names[i]])),
        }) by {
            if i > 0 {
                assert(all[i] == parsed(later)[i - 1]);
                assert(rest[i - 1] == names[i]);
            }
        }
    }
}

/// Where an entry of a rectangular matrix stands among all its entries.
proof fn lemma_flat_index(m: Seq<Seq<usize>>, nrows: nat, ncols: nat, r: int, c: int)
    requires
        has_shape(m, nrows, ncols),
        0 <= r < nrows,
        0 <= c < ncols,
    ensures
        flat(m).len() == nrows * ncols,
        0 <= r * ncols + c < nrows * ncols,
        flat(m)[r * ncols + c] == m[r][c],
    decreases nrows,
{
    lemma_flat_len(m, nrows, ncols);
    let rest = m.drop_last();
    assert(m[m.len() - 1] == m.last());
    assert forall|k: int| 0 <= k < nrows - 1 implies (#[trigger] rest[k]).len() == ncols by {
        assert(m[k] == rest[k]);
    }
    lemma_flat_len(rest, (nrows - 1) as nat, ncols);
    assert(0 <= r * ncols + c < nrows * ncols) by (nonlinear_arith)
        requires
            0 <= r < nrows,
            0 <= c < ncols,
    ;
    if r < nrows - 1 {
        lemma_flat_index(rest, (nrows - 1) as nat, ncols, r, c);
    } else {
        assert(r * ncols + c == (nrows - 1) * ncols + c);
    }
}

proof fn lemma_flat_len(m: Seq<Seq<usize>>, nrows: nat, ncols: nat)
    requires
        has_shape(m, nrows, ncols),
    ensures
        flat(m).len() == nrows * ncols,
    decreases nrows,
{
    if nrows == 0 {
        assert(nrows * ncols == 0) by (nonlinear_arith)
            requires
                nrows == 0,
        ;
    } else {
        let rest = m.drop_last();
        assert(m[m.len() - 1] == m.last());
        assert forall|k: int| 0 <= k < nrows - 1 implies (#[trigger] rest[k]).len() == ncols by {
            assert(m[k] == rest[k]);
        }
        lemma_flat_len(rest, (nrows - 1) as nat, ncols);
        assert((nrows - 1) * ncols + ncols == nrows * ncols) by (nonlinear_arith);
    }
}

/// The words of the matrix at place `k` of a layout are those on line `k`.
proof fn lemma_sources(layout: Seq<Shape>, k: int, j: int)
    requires
        0 <= k < layout.len(),
        0 <= j < layout[k].rows * layout[k].cols,
    ensures
        sources_of(layout).len() == size_of(layout),
        size_of(layout.take(k)) + j < size_of(layout),
        sources_of(layout)[size_of(layout.take(k)) + j] == (k as usize, j as usize),
    decreases layout.len(),
{
    let rest = layout.drop_last();
    lemma_sources_len(layout);
    lemma_sources_len(rest);
    assert(layout[layout.len() - 1] == layout.last());
    if k < layout.len() - 1 {
        assert(rest[k] == layout[k]);
        assert(rest.take(k) =~= layout.take(k));
        lemma_sources(rest, k, j);
    } else {
        assert(layout.take(k) =~= rest);
    }
}

proof fn lemma_sources_len(layout: Seq<Shape>)
    ensures
        sources_of(layout).len() == size_of(layout),
    decreases layout.len(),
{
    if layout.len() > 0 {
        lemma_sources_len(layout.drop_last());
    }
}

/// Where no name comes twice, every matrix stands where it was laid out.
proof fn lemma_laid_out_at(layout: Seq<Shape>, k: int)
    requires
        0 <= k < layout.len(),
        forall|i: int, j: int|
            0 <= i < j < layout.len() ==> (#[trigger] layout[i]).name != (#[trigger] layout[j]).name,
    ensures
        laid_out(layout)[layout[k].name] == grid(
            size_of(layout.take(k)),
            layout[k].rows,
            layout[k].cols,
        ),
    decreases layout.len(),
{
    let rest = layout.drop_last();
    assert(layout[layout.len() - 1] == layout.last());
    if k < layout.len() - 1 {
        assert(rest[k] == layout[k]);
        assert(rest.take(k) =~= layout.take(k));
        assert forall|i: int, j: int| 0 <= i < j < rest.len() implies (#[trigger] rest[i]).name != (
        #[trigger] rest[j]).name by {
            assert(layout[i] == rest[i] && layout[j] == rest[j]);
        }
        lemma_laid_out_at(rest, k);
        assert(layout[k].name != layout[layout.len() - 1].name);
    } else {
        assert(layout.take(k) =~= rest);
    }
}

/// Whether the entries of all matrices have texts that can stand in a checkpoint.
pub open spec fn writable(d: Dict, rendered: Seq<Seq<char>>) -> bool {
    &&& dict_below(d, rendered.len())
    &&& forall|name: Seq<char>| #[trigger]
        d.contains_key(name) ==> clean(name) && solid_words(pick(rendered, flat(d[name])))
}

/// Whether every matrix has the shape that its name calls for.
pub open spec fn well_shaped(d: Dict, vocab_size: nat) -> bool {
    forall|name: Seq<char>| #[trigger]
        d.contains_key(name) ==> has_shape(
            d[name],
            shape_of(name, vocab_size).0,
            shape_of(name, vocab_size).1,
        )
}

/// The lines of a checkpoint name the saved matrices, in order, and hold the texts of
/// their entries, row by row.
pub proof fn law_saved_lines(d: Dict, rendered: Seq<Seq<char>>)
    requires
        d.dom().finite(),
        writable(d, rendered),
    ensures
        ({
            let ls = parsed(saved(d, rendered));
            let names = listing(d.dom());
            &&& is_listing(names, d.dom())
            &&& forall|i: int, j: int|
                0 <= i < j < names.len() ==> before(#[trigger] names[i], #[trigger] names[j])
            &&& forall|name: Seq<char>| #[trigger]
                names.contains(name) <==> d.contains_key(name)
            &&& ls.len() == names.len()
            &&& forall|i: int|
                0 <= i < ls.len() ==> #[trigger] ls[i] == (Parsed {
                    name: names[i],
                    words: pick(rendered, flat(d[names[i]])),
                })
        }),
{
    let names = listing(d.dom());
    lemma_listing_exists(d.dom());
    assert forall|i: int| 0 <= i < names.len() implies clean(#[trigger] names[i]) && solid_words(
        pick(rendered, flat(d[names[i]])),
    ) by {
        assert(names.contains(names[i]));
        assert(d.contains_key(names[i]));
    }
    lemma_parsed_text(names, d, rendered);
}

/// The word for row `r` and column `c` of a saved matrix is number `r * ncols + c` on
/// the line of its name, and it is the very text of that entry. The line returned is
/// the only one with that name.
pub proof fn law_saved_word(
    d: Dict,
    rendered: Seq<Seq<char>>,
    name: Seq<char>,
    nrows: nat,
    ncols: nat,
    r: int,
    c: int,
) -> (line: int)
    requires
        d.dom().finite(),
        writable(d, rendered),
        d.contains_key(name),
        has_shape(d[name], nrows, ncols),
        0 <= r < nrows,
        0 <= c < ncols,
    ensures
        ({
            let ls = parsed(saved(d, rendered));
            &&& 0 <= line < ls.len()
            &&& ls[line].name == name
            &&& forall|i: int| 0 <= i < ls.len() && i != line ==> (#[trigger] ls[i]).name != name
            &&& ls[line].words.len() == nrows * ncols
            &&& 0 <= r * ncols + c < nrows * ncols
            &&& ls[line].words[r * ncols + c] == rendered[d[name][r][c] as int]
        }),
{
    let ls = parsed(saved(d, rendered));
    let names = listing(d.dom());
    law_saved_lines(d, rendered);
    assert(names.contains(name));
    let line = choose|i: int| 0 <= i < names.len() && names[i] == name;
    assert(ls[line].name == name);
    assert forall|i: int| 0 <= i < ls.len() && i != line implies (#[trigger] ls[i]).name != name by {
        lemma_before_irreflexive(name);
        if i < line {
            assert(before(names[i], names[line]));
        } else {
            assert(before(names[line], names[i]));
        }
    }
    lemma_flat_index(d[name], nrows, ncols, r, c);
    line
}

/// Whether every entry of the saved matrices is read, in the loaded model, from the
/// very text that was written for it.
pub open spec fn given_back(d: Dict, rendered: Seq<Seq<char>>, vocab_size: nat) -> bool {
    let ls = parsed(saved(d, rendered));
    let layout = load_layout(ls, vocab_size);
    let loaded = laid_out(layout);
    forall|name: Seq<char>, r: int, c: int|
        #![trigger loaded[name][r][c]]
        d.contains_key(name) && 0 <= r < d[name].len() && 0 <= c < d[name][r].len() ==> ({
            let source = sources_of(layout)[loaded[name][r][c] as int];
            &&& loaded[name][r][c] < sources_of(layout).len()
            &&& source.0 < ls.len()
            &&& source.1 < ls[source.0 as int].words.len()
            &&& ls[source.0 as int].words[source.1 as int] == rendered[d[name][r][c] as int]
        })
}

/// A checkpoint gives back what was saved. Its lines name the matrices that were
/// saved; where these have the shapes that their names call for, every line has
/// all the words it needs, and the loaded model has the same matrices with the same
/// shapes. As long as all entries and lines can be numbered, the lines can be loaded,
/// and every entry is read from the very text that was written for it.
pub proof fn law_save_then_load(d: Dict, rendered: Seq<Seq<char>>, vocab_size: nat)
    requires
        d.dom().finite(),
        writable(d, rendered),
        well_shaped(d, vocab_size),
    ensures
        ({
            let ls = parsed(saved(d, rendered));
            let layout = load_layout(ls, vocab_size);
            let loaded = laid_out(layout);
            &&& forall|i: int| 0 <= i < ls.len() ==> line_fits(#[trigger] ls[i], vocab_size)
            &&& loaded.dom() == d.dom()
            &&& well_shaped(loaded, vocab_size)
            &&& size_of(layout) <= usize::MAX && ls.len() <= usize::MAX ==> loadable(
                ls,
                vocab_size,
            ) && given_back(d, rendered, vocab_size)
        }),
{
    let names = listing(d.dom());
    let ls = parsed(saved(d, rendered));
    let layout = load_layout(ls, vocab_size);
    let loaded = laid_out(layout);
    law_saved_lines(d, rendered);
    assert forall|i: int| 0 <= i < ls.len() implies line_fits(#[trigger] ls[i], vocab_size) by {
        assert(names.contains(names[i]));
        assert(d.contains_key(names[i]));
        let (nrows, ncols) = shape_of(names[i], vocab_size);
        lemma_flat_len(d[names[i]], nrows, ncols);
    }
    assert forall|i: int, j: int| 0 <= i < j < layout.len() implies (#[trigger] layout[i]).name != (
    #[trigger] layout[j]).name by {
        assert(ls[i].name == names[i] && ls[j].name == names[j]);
        assert(before(names[i], names[j]));
        lemma_before_irreflexive(names[i]);
    }
    assert forall|name: Seq<char>| loaded.dom().contains(name) <==> d.dom().contains(name) by {
        lemma_laid_out_names(layout, name);
        if d.dom().contains(name) {
            assert(names.contains(name));
            let i = choose|i: int| 0 <= i < names.len() && names[i] == name;
            assert(layout[i].name == ls[i].name);
        }
        if loaded.dom().contains(name) {
            let i = choose|i: int| 0 <= i < layout.len() && (#[trigger] layout[i]).name == name;
            assert(ls[i].name == names[i]);
            assert(names.contains(names[i]));
        }
    }
    assert(loaded.dom() =~= d.dom());
    assert forall|name: Seq<char>| #[trigger] loaded.contains_key(name) implies has_shape(
        loaded[name],
        shape_of(name, vocab_size).0,
        shape_of(name, vocab_size).1,
    ) by {
        assert(d.dom().contains(name));
        assert(names.contains(name));
        let k = choose|k: int| 0 <= k < names.len() && names[k] == name;
        assert(ls[k].name == name);
        assert(layout[k].name == name);
        lemma_laid_out_at(layout, k);
    }
    if size_of(layout) <= usize::MAX && ls.len() <= usize::MAX {
        assert forall|name: Seq<char>, r: int, c: int|
            #![trigger loaded[name][r][c]]
            d.contains_key(name) && 0 <= r < d[name].len() && 0 <= c < d[name][r].len() implies ({
            let source = sources_of(layout)[loaded[name][r][c] as int];
            &&& loaded[name][r][c] < sources_of(layout).len()
            &&& source.0 < ls.len()
            &&& source.1 < ls[source.0 as int].words.len()
            &&& ls[source.0 as int].words[source.1 as int] == rendered[d[name][r][c] as int]
        }) by {
            assert(names.contains(name));
            let k = choose|k: int| 0 <= k < names.len() && names[k] == name;
            let (nrows, ncols) = shape_of(name, vocab_size);
            assert(ls[k].name == name);
            assert(layout[k] == (Shape { name, rows: nrows, cols: ncols }));
            lemma_laid_out_at(layout, k);
            lemma_flat_index(d[name], nrows, ncols, r, c);
            lemma_sources(layout, k, r * ncols + c);
        }
    }
}

/// The sum of what names weigh.
spec fn weighed(names: Seq<Seq<char>>, weight: spec_fn(Seq<char>) -> nat) -> nat
    decreases names.len(),
{
    if names.len() == 0 {
        0
    } else {
        weighed(names.drop_last(), weight) + weight(names.last())
    }
}

proof fn lemma_weighed_remove(names: Seq<Seq<char>>, weight: spec_fn(Seq<char>) -> nat, j: int)
    requires
        0 <= j < names.len(),
    ensures
        weighed(names, weight) == weighed(names.remove(j), weight) + weight(names[j]),
    decreases names.len(),
{
    let n = names.len();
    if j == n - 1 {
        assert(names.remove(j) =~= names.drop_last());
    } else {
        lemma_weighed_remove(names.drop_last(), weight, j);
        assert(names.remove(j).drop_last() =~= names.drop_last().remove(j));
        assert(names.remove(j).last() == names.last());
    }
}

/// The same names weigh the same in every order.
proof fn lemma_weighed_permuted(
    a: Seq<Seq<char>>,
    b: Seq<Seq<char>>,
    weight: spec_fn(Seq<char>) -> nat,
)
    requires
        a.no_duplicates(),
        b.no_duplicates(),
        forall|x: Seq<char>| #[trigger] a.contains(x) <==> b.contains(x),
    ensures
        weighed(a, weight) == weighed(b, weight),
        a.len() == b.len(),
    decreases a.len(),
{
    if a.len() == 0 {
        if b.len() > 0 {
            assert(b.contains(b[0]));
            assert(a.contains(b[0]));
        }
    } else {
        let x = a.last();
        assert(a[a.len() - 1] == x);
        assert(a.contains(x));
        assert(b.contains(x));
        let j = choose|j: int| 0 <= j < b.len() && b[j] == x;
        let s = a.drop_last();
        let t = b.remove(j);
        assert forall|y: Seq<char>| #[trigger] s.contains(y) <==> t.contains(y) by {
            if s.contains(y) {
                let k = choose|k: int| 0 <= k < s.len() && s[k] == y;
                assert(a[k] == y);
                assert(a.contains(y));
                assert(b.contains(y));
                let l = choose|l: int| 0 <= l < b.len() && b[l] == y;
                if l < j {
                    assert(t[l] == y);
                } else {
                    assert(t[l - 1] == y);
                }
            }
            if t.contains(y) {
                let l = choose|l: int| 0 <= l < t.len() && t[l] == y;
                let m = if l < j {
                    l
                } else {
                    l + 1
                };
                assert(b[m] == y);
                assert(b.contains(y));
                assert(a.contains(y));
                let k = choose|k: int| 0 <= k < a.len() && a[k] == y;
                assert(y != x);
                assert(s[k] == y);
            }
        }
        assert(t.no_duplicates());
        lemma_weighed_permuted(s, t, weight);
        lemma_weighed_remove(b, weight, j);
    }
}

/// The names of the matrices of a layout.
pub open spec fn names_of(layout: Seq<Shape>) -> Seq<Seq<char>> {
    Seq::new(layout.len(), |i: int| layout[i].name)
}

/// How many entries the matrix under a name has.
spec fn entries_of(vocab_size: nat) -> spec_fn(Seq<char>) -> nat {
    |name: Seq<char>| shape_of(name, vocab_size).0 * shape_of(name, vocab_size).1
}

/// A layout needs as many parameters as the matrices under its names have entries.
proof fn lemma_size_weighed(layout: Seq<Shape>, vocab_size: nat)
    requires
        forall|i: int|
            0 <= i < layout.len() ==> ((#[trigger] layout[i]).rows, layout[i].cols) == shape_of(
                layout[i].name,
                vocab_size,
            ),
    ensures
        size_of(layout) == weighed(names_of(layout), entries_of(vocab_size)),
    decreases layout.len(),
{
    if layout.len() > 0 {
        let rest = layout.drop_last();
        assert(layout[layout.len() - 1] == layout.last());
        assert forall|i: int| 0 <= i < rest.len() implies ((#[trigger] rest[i]).rows, rest[i].cols)
            == shape_of(rest[i].name, vocab_size) by {
            assert(layout[i] == rest[i]);
        }
        lemma_size_weighed(rest, vocab_size);
        assert(names_of(layout).drop_last() =~= names_of(rest));
    }
}

/// The checkpoint of a model that was laid out under different names needs as many
/// parameters as that model, and has as many lines as it has matrices.
pub proof fn lemma_saved_size(layout: Seq<Shape>, rendered: Seq<Seq<char>>, vocab_size: nat)
    requires
        laid_out(layout).dom().finite(),
        writable(laid_out(layout), rendered),
        names_of(layout).no_duplicates(),
        forall|i: int|
            0 <= i < layout.len() ==> ((#[trigger] layout[i]).rows, layout[i].cols) == shape_of(
                layout[i].name,
                vocab_size,
            ),
    ensures
        ({
            let ls = parsed(saved(laid_out(layout), rendered));
            &&& ls.len() == layout.len()
            &&& size_of(load_layout(ls, vocab_size)) == size_of(layout)
        }),
{
    let d = laid_out(layout);
    let ls = parsed(saved(d, rendered));
    let there = load_layout(ls, vocab_size);
    let names = listing(d.dom());
    law_saved_lines(d, rendered);
    lemma_size_weighed(layout, vocab_size);
    lemma_size_weighed(there, vocab_size);
    assert(names_of(there) =~= names);
    assert forall|i: int, j: int| 0 <= i < names.len() && 0 <= j < names.len() && i != j implies
        names[i] != names[j] by {
        lemma_before_irreflexive(names[i]);
        if i < j {
            assert(before(names[i], names[j]));
        } else {
            assert(before(names[j], names[i]));
        }
    }
    assert forall|x: Seq<char>| #[trigger] names.contains(x) <==> names_of(layout).contains(x) by {
        lemma_laid_out_names(layout, x);
        assert(names.contains(x) <==> d.dom().contains(x));
        if names_of(layout).contains(x) {
            let i = choose|i: int| 0 <= i < names_of(layout).len() && names_of(layout)[i] == x;
            assert(layout[i].name == x);
        }
        if d.dom().contains(x) {
            let i = choose|i: int| 0 <= i < layout.len() && (#[trigger] layout[i]).name == x;
            assert(names_of(layout)[i] == x);
        }
    }
    lemma_weighed_permuted(names, names_of(layout), entries_of(vocab_size));
}

/// Where no later matrix of a layout has the same name, a matrix stands where it was laid
/// out.
proof fn lemma_laid_out_last(layout: Seq<Shape>, k: int)
    requires
        0 <= k < layout.len(),
        forall|j: int| k < j < layout.len() ==> (#[trigger] layout[j]).name != layout[k].name,
    ensures
        laid_out(layout).contains_key(layout[k].name),
        laid_out(layout)[layout[k].name] == grid(
            size_of(layout.take(k)),
            layout[k].rows,
            layout[k].cols,
        ),
    decreases layout.len(),
{
    let rest = layout.drop_last();
    assert(layout[layout.len() - 1] == layout.last());
    if k < layout.len() - 1 {
        assert(rest[k] == layout[k]);
        assert(rest.take(k) =~= layout.take(k));
        assert forall|j: int| k < j < rest.len() implies (#[trigger] rest[j]).name
            != rest[k].name by {
            assert(layout[j] == rest[j]);
        }
        lemma_laid_out_last(rest, k);
        assert(layout[layout.len() - 1].name != layout[k].name);
    } else {
        assert(layout.take(k) =~= rest);
    }
}

/// Loading any lines gives each name a matrix of the shape that it calls for, and reads
/// row `r` and column `c` from word `r * ncols + c` of the last line with that name.
pub proof fn law_loaded_entry(ls: Seq<Parsed>, vocab_size: nat, k: int, r: int, c: int)
    requires
        loadable(ls, vocab_size),
        ls.len() <= usize::MAX,
        0 <= k < ls.len(),
        forall|j: int| k < j < ls.len() ==> (#[trigger] ls[j]).name != ls[k].name,
        0 <= r < shape_of(ls[k].name, vocab_size).0,
        0 <= c < shape_of(ls[k].name, vocab_size).1,
    ensures
        ({
            let (nrows, ncols) = shape_of(ls[k].name, vocab_size);
            let layout = load_layout(ls, vocab_size);
            let m = laid_out(layout)[ls[k].name];
            &&& laid_out(layout).contains_key(ls[k].name)
            &&& has_shape(m, nrows, ncols)
            &&& m[r][c] < sources_of(layout).len()
            &&& sources_of(layout)[m[r][c] as int] == (k as usize, (r * ncols + c) as usize)
            &&& r * ncols + c < ls[k].words.len()
        }),
{
    let (nrows, ncols) = shape_of(ls[k].name, vocab_size);
    let layout = load_layout(ls, vocab_size);
    assert(layout[k] == (Shape { name: ls[k].name, rows: nrows, cols: ncols }));
    assert forall|j: int| k < j < layout.len() implies (#[trigger] layout[j]).name
        != layout[k].name by {
        assert(ls[j].name != ls[k].name);
    }
    lemma_laid_out_last(layout, k);
    assert(0 <= r * ncols + c < nrows * ncols) by (nonlinear_arith)
        requires
            0 <= r < nrows,
            0 <= c < ncols,
    ;
    lemma_sources(layout, k, r * ncols + c);
    assert(line_fits(ls[k], vocab_size));
}

} // verus!
