//! The checkpoint format: one line for each matrix, in the order of the names,
//! with the name and then the entries, row by row, all separated by spaces.
//!
//! The text of each parameter is given and taken as it is; only a caller that
//! owns the numbers can write and read them.

use vstd::prelude::*;
use vstd::string::*;

use crate::config::{BLOCK_SIZE, N_EMBD};
use crate::gpt::dict_below;
use crate::params::{size_of, Dict, Model, Shape, StateDict};
use crate::tape::{below, pick, rows, rows_below, Matrix};
use crate::text::{
    before, contains, has_part, is_before, law_a_line_feed_ends_a_line, law_split,
    law_the_last_line, law_words, lines, lines_of, part_at, same, split_at_space, split_once,
    strictly_sorted, views, words, words_of,
};

verus! {

/// The entries of a matrix, row by row.
pub open spec fn flat(m: Seq<Seq<usize>>) -> Seq<usize>
    decreases m.len(),
{
    if m.len() == 0 {
        Seq::empty()
    } else {
        flat(m.drop_last()) + m.last()
    }
}

/// Words with a space between each and the next.
pub open spec fn joined(ws: Seq<Seq<char>>) -> Seq<char>
    decreases ws.len(),
{
    if ws.len() == 0 {
        Seq::empty()
    } else if ws.len() == 1 {
        ws[0]
    } else {
        ws[0] + seq![' '] + joined(ws.drop_first())
    }
}

/// The line of a matrix, where `rendered` holds the text of each parameter.
pub open spec fn line_of(name: Seq<char>, m: Seq<Seq<usize>>, rendered: Seq<Seq<char>>) -> Seq<
    char,
> {
    name + seq![' '] + joined(pick(rendered, flat(m)))
}

/// The lines of the named matrices.
pub open spec fn text_of(names: Seq<Seq<char>>, d: Dict, rendered: Seq<Seq<char>>) -> Seq<char>
    decreases names.len(),
{
    if names.len() == 0 {
        Seq::empty()
    } else {
        line_of(names[0], d[names[0]], rendered) + seq!['\n'] + text_of(
            names.drop_first(),
            d,
            rendered,
        )
    }
}

/// Whether `names` lists a set of names in order.
pub open spec fn is_listing(names: Seq<Seq<char>>, set: Set<Seq<char>>) -> bool {
    &&& strictly_sorted(names)
    &&& forall|name: Seq<char>| #[trigger] names.contains(name) <==> set.contains(name)
}

/// The names of a set, in order.
pub open spec fn listing(set: Set<Seq<char>>) -> Seq<Seq<char>> {
    choose|names: Seq<Seq<char>>| is_listing(names, set)
}

/// The checkpoint of some matrices.
pub open spec fn saved(d: Dict, rendered: Seq<Seq<char>>) -> Seq<char> {
    text_of(listing(d.dom()), d, rendered)
}

/// No string comes before itself.
pub proof fn lemma_before_irreflexive(a: Seq<char>)
    ensures
        !before(a, a),
    decreases a.len(),
{
    if a.len() > 0 {
        lemma_before_irreflexive(a.drop_first());
    }
}

proof fn lemma_before_transitive(a: Seq<char>, b: Seq<char>, c: Seq<char>)
    requires
        before(a, b),
        before(b, c),
    ensures
        before(a, c),
    decreases a.len(),
{
    if a.len() > 0 {
        if a[0] == b[0] && b[0] == c[0] {
            lemma_before_transitive(a.drop_first(), b.drop_first(), c.drop_first());
        }
    }
}

/// Of two different strings, one comes before the other.
proof fn lemma_before_total(a: Seq<char>, b: Seq<char>)
    ensures
        a == b || before(a, b) || before(b, a),
    decreases a.len(),
{
    if a.len() == 0 || b.len() == 0 {
        assert(a.len() == 0 && b.len() == 0 ==> a =~= b);
    } else if a[0] == b[0] {
        lemma_before_total(a.drop_first(), b.drop_first());
        if a.drop_first() == b.drop_first() {
            assert(a =~= seq![a[0]] + a.drop_first());
            assert(b =~= seq![b[0]] + b.drop_first());
        }
    }
}

/// What is put between the smaller and the larger ones keeps the order.
proof fn lemma_insert_sorted(names: Seq<Seq<char>>, x: Seq<char>, p: int)
    requires
        strictly_sorted(names),
        0 <= p <= names.len(),
        forall|i: int| 0 <= i < p ==> before(#[trigger] names[i], x),
        forall|i: int| p <= i < names.len() ==> before(x, #[trigger] names[i]),
    ensures
        strictly_sorted(names.insert(p, x)),
        forall|name: Seq<char>| #[trigger]
            names.insert(p, x).contains(name) <==> names.contains(name) || name == x,
{
    let more = names.insert(p, x);
    assert forall|i: int, j: int| 0 <= i < j < more.len() implies before(
        #[trigger] more[i],
        #[trigger] more[j],
    ) by {
        let k = if i < p {
            i
        } else {
            i - 1
        };
        let l = if j < p {
            j
        } else {
            j - 1
        };
        if i != p {
            assert(more[i] == names[k]);
        }
        if j != p {
            assert(more[j] == names[l]);
        }
    }
    assert forall|name: Seq<char>| #[trigger] more.contains(name) <==> names.contains(name) || name
        == x by {
        assert(more[p] == x);
        if names.contains(name) {
            let i = choose|i: int| 0 <= i < names.len() && names[i] == name;
            if i < p {
                assert(more[i] == name);
            } else {
                assert(more[i + 1] == name);
            }
        }
        if more.contains(name) && name != x {
            let i = choose|i: int| 0 <= i < more.len() && more[i] == name;
            if i < p {
                assert(names[i] == name);
            } else {
                assert(names[i - 1] == name);
            }
        }
    }
}

/// Where a new name belongs among sorted ones.
proof fn lemma_place(names: Seq<Seq<char>>, x: Seq<char>) -> (p: int)
    requires
        strictly_sorted(names),
        !names.contains(x),
    ensures
        0 <= p <= names.len(),
        forall|i: int| 0 <= i < p ==> before(#[trigger] names[i], x),
        forall|i: int| p <= i < names.len() ==> before(x, #[trigger] names[i]),
    decreases names.len(),
{
    if names.len() == 0 {
        0
    } else {
        let rest = names.drop_last();
        let last = names.last();
        assert(names[names.len() - 1] == last);
        assert(names.contains(last));
        lemma_before_total(last, x);
        if before(last, x) {
            assert forall|i: int| 0 <= i < names.len() implies before(#[trigger] names[i], x) by {
                if i < names.len() - 1 {
                    lemma_before_transitive(names[i], last, x);
                }
            }
            names.len() as int
        } else {
            assert(!rest.contains(x)) by {
                if rest.contains(x) {
                    let i = choose|i: int| 0 <= i < rest.len() && rest[i] == x;
                    assert(names[i] == x);
                }
            }
            assert forall|i: int, j: int| 0 <= i < j < rest.len() implies before(
                #[trigger] rest[i],
                #[trigger] rest[j],
            ) by {
                assert(names[i] == rest[i] && names[j] == rest[j]);
            }
            let p = lemma_place(rest, x);
            assert forall|i: int| 0 <= i < p implies before(#[trigger] names[i], x) by {
                assert(rest[i] == names[i]);
            }
            assert forall|i: int| p <= i < names.len() implies before(x, #[trigger] names[i]) by {
                if i < rest.len() {
                    assert(rest[i] == names[i]);
                }
            }
            p
        }
    }
}

/// Every finite set of names has a listing.
pub proof fn lemma_listing_exists(set: Set<Seq<char>>)
    requires
        set.finite(),
    ensures
        is_listing(listing(set), set),
    decreases set.len(),
{
    if set.len() == 0 {
        let none = Seq::<Seq<char>>::empty();
        assert(set =~= Set::empty());
        assert(is_listing(none, set));
    } else {
        let x = set.choose();
        let rest = set.remove(x);
        lemma_listing_exists(rest);
        let names = listing(rest);
        assert(!names.contains(x));
        let p = lemma_place(names, x);
        lemma_insert_sorted(names, x, p);
        let more = names.insert(p, x);
        assert forall|name: Seq<char>| #[trigger] more.contains(name) <==> set.contains(name) by {
            assert(names.contains(name) <==> rest.contains(name));
        }
        assert(is_listing(more, set));
    }
}

/// A set of names has one listing only.
proof fn lemma_listing_unique(a: Seq<Seq<char>>, b: Seq<Seq<char>>)
    requires
        strictly_sorted(a),
        strictly_sorted(b),
        forall|name: Seq<char>| #[trigger] a.contains(name) <==> b.contains(name),
    ensures
        a == b,
    decreases a.len(),
{
    if a.len() == 0 {
        if b.len() > 0 {
            assert(b.contains(b[0]));
            assert(a.contains(b[0]));
        }
        assert(a =~= b);
    } else {
        assert(a.contains(a[0]));
        assert(b.contains(a[0]));
        let x = a.last();
        let y = b.last();
        assert(a[a.len() - 1] == x);
        assert(b[b.len() - 1] == y);
        assert(a.contains(x));
        assert(b.contains(x));
        assert(b.contains(y));
        assert(a.contains(y));
        let i = choose|i: int| 0 <= i < b.len() && b[i] == x;
        let j = choose|j: int| 0 <= j < a.len() && a[j] == y;
        assert(x == y) by {
            if x != y {
                assert(before(b[i], b[b.len() - 1]));
                assert(before(a[j], a[a.len() - 1]));
                lemma_before_transitive(x, y, x);
                lemma_before_irreflexive(x);
            }
        }
        let s = a.drop_last();
        let t = b.drop_last();
        assert forall|name: Seq<char>| #[trigger] s.contains(name) <==> t.contains(name) by {
            if s.contains(name) {
                let k = choose|k: int| 0 <= k < s.len() && s[k] == name;
                assert(a[k] == name);
                assert(before(a[k], a[a.len() - 1]));
                lemma_before_irreflexive(x);
                assert(a.contains(name));
                assert(b.contains(name));
                let l = choose|l: int| 0 <= l < b.len() && b[l] == name;
                assert(t[l] == name);
            }
            if t.contains(name) {
                let k = choose|k: int| 0 <= k < t.len() && t[k] == name;
                assert(b[k] == name);
                assert(before(b[k], b[b.len() - 1]));
                lemma_before_irreflexive(x);
                assert(b.contains(name));
                assert(a.contains(name));
                let l = choose|l: int| 0 <= l < a.len() && a[l] == name;
                assert(s[l] == name);
            }
        }
        assert forall|i: int, j: int| 0 <= i < j < s.len() implies before(
            #[trigger] s[i],
            #[trigger] s[j],
        ) by {
            assert(a[i] == s[i] && a[j] == s[j]);
        }
        assert forall|i: int, j: int| 0 <= i < j < t.len() implies before(
            #[trigger] t[i],
            #[trigger] t[j],
        ) by {
            assert(b[i] == t[i] && b[j] == t[j]);
        }
        lemma_listing_unique(s, t);
        assert(a =~= s.push(x));
        assert(b =~= t.push(x));
    }
}

/// The names of the matrices, in order.
pub fn sorted_names(sd: &StateDict) -> (names: Vec<String>)
    requires
        sd.wf(),
    ensures
        views(names@) == listing(sd@.dom()),
        is_listing(views(names@), sd@.dom()),
{
    let ghost all = views(sd.names@);
    let mut names: Vec<String> = Vec::new();
    let mut i: usize = 0;
    while i < sd.names.len()
        invariant
            sd.wf(),
            all == views(sd.names@),
            i <= sd.names@.len(),
            strictly_sorted(views(names@)),
            forall|name: Seq<char>| #[trigger]
                views(names@).contains(name) <==> all.take(i as int).contains(name),
        decreases sd.names@.len() - i,
    {
        let ghost done = views(names@);
        let ghost x = sd.names@[i as int]@;
        let mut p: usize = 0;
        while p < names.len() && is_before(names[p].as_str(), sd.names[i].as_str())
            invariant
                i < sd.names@.len(),
                x == sd.names@[i as int]@,
                done == views(names@),
                p <= names@.len(),
                forall|k: int| 0 <= k < p ==> before(#[trigger] done[k], x),
            decreases names@.len() - p,
        {
            assert(done[p as int] == names@[p as int]@);
            p += 1;
        }
        proof {
            let seen = all.take(i as int);
            let next = all.take(i + 1);
            assert(all[i as int] == x);
            assert(!done.contains(x)) by {
                if seen.contains(x) {
                    let k = choose|k: int| 0 <= k < seen.len() && seen[k] == x;
                    assert(all[k] == all[i as int]);
                }
            }
            assert forall|k: int| p <= k < done.len() implies before(x, #[trigger] done[k]) by {
                assert(done[p as int] == names@[p as int]@);
                assert(done.contains(done[p as int]));
                lemma_before_total(done[p as int], x);
                if k > p {
                    lemma_before_transitive(x, done[p as int], done[k]);
                }
            }
            lemma_insert_sorted(done, x, p as int);
            assert forall|name: Seq<char>|
                seen.contains(name) || name == x <==> #[trigger] next.contains(name) by {
                if seen.contains(name) {
                    let k = choose|k: int| 0 <= k < seen.len() && seen[k] == name;
                    assert(next[k] == name);
                }
                assert(next[i as int] == x);
                if next.contains(name) && name != x {
                    let k = choose|k: int| 0 <= k < next.len() && next[k] == name;
                    assert(seen[k] == name);
                }
            }
        }
        names.insert(p, sd.names[i].clone());
        assert(views(names@) =~= done.insert(p as int, x));
        i += 1;
    }
    proof {
        assert(all.take(all.len() as int) =~= all);
        let names = views(names@);
        assert(is_listing(names, sd@.dom()));
        let l = listing(sd@.dom());
        assert forall|name: Seq<char>| #[trigger] names.contains(name) <==> l.contains(name) by {
            assert(l.contains(name) <==> sd@.dom().contains(name));
        }
        lemma_listing_unique(names, l);
    }
    names
}

/// The entries of a matrix are those of its rows.
pub proof fn lemma_flat_below(m: Seq<Seq<usize>>, n: nat)
    requires
        rows_below(m, n),
    ensures
        below(flat(m), n),
    decreases m.len(),
{
    if m.len() > 0 {
        let rest = m.drop_last();
        assert(m[m.len() - 1] == m.last());
        assert forall|r: int| 0 <= r < rest.len() implies below(#[trigger] rest[r], n) by {
            assert(m[r] == rest[r]);
        }
        lemma_flat_below(rest, n);
    }
}

/// The entries of a matrix, row by row.
fn flatten(m: &Matrix) -> (out: Vec<usize>)
    ensures
        out@ == flat(rows(m@)),
{
    let ghost all = rows(m@);
    let mut out: Vec<usize> = Vec::new();
    let mut r: usize = 0;
    while r < m.len()
        invariant
            all == rows(m@),
            r <= m@.len(),
            out@ == flat(all.take(r as int)),
        decreases m@.len() - r,
    {
        let ghost before = out@;
        let ghost next = all.take(r + 1);
        assert(next.drop_last() =~= all.take(r as int));
        assert(next.last() == m@[r as int]@);
        let mut row = m[r].clone();
        assert(row@ =~= m@[r as int]@);
        out.append(&mut row);
        r += 1;
    }
    assert(all.take(all.len() as int) =~= all);
    out
}

/// Appends the words at the given positions, with a space between each and the next.
fn push_joined(s: &mut String, rendered: &Vec<String>, ids: &Vec<usize>)
    requires
        below(ids@, rendered@.len()),
    ensures
        final(s)@ == old(s)@ + joined(pick(views(rendered@), ids@)),
{
    let ghost start = s@;
    let ghost ws = pick(views(rendered@), ids@);
    let mut i: usize = 0;
    assert(ws.skip(0) =~= ws);
    while i < ids.len()
        invariant
            below(ids@, rendered@.len()),
            ws == pick(views(rendered@), ids@),
            i <= ids@.len(),
            s@ + joined(ws.skip(i as int)) == start + joined(ws),
        decreases ids@.len() - i,
    {
        let ghost so_far = s@;
        let ghost rest = ws.skip(i as int);
        assert(ids@[i as int] < rendered@.len());
        assert(rest[0] == rendered@[ids@[i as int] as int]@);
        s.append(rendered[ids[i]].as_str());
        if i + 1 < ids.len() {
            s.push(' ');
        }
        i += 1;
        assert(rest.drop_first() =~= ws.skip(i as int));
        assert(s@ + joined(ws.skip(i as int)) =~= so_far + joined(rest));
    }
    assert(ws.skip(ids@.len() as int) =~= Seq::empty());
    assert(s@ + joined(ws.skip(ids@.len() as int)) =~= s@);
}

/// The text of a checkpoint, where `rendered` holds the text of each parameter.
pub fn save_model(sd: &StateDict, rendered: &Vec<String>) -> (text: String)
    requires
        sd.wf(),
        dict_below(sd@, rendered@.len()),
    ensures
        text@ == saved(sd@, views(rendered@)),
{
    let ghost d = sd@;
    let ghost r = views(rendered@);
    let names = sorted_names(sd);
    let ghost all = views(names@);
    let mut text = String::new();
    let mut i: usize = 0;
    assert(all.skip(0) =~= all);
    assert(text@ + text_of(all, d, r) =~= text_of(all, d, r));
    while i < names.len()
        invariant
            sd.wf(),
            d == sd@,
            r == views(rendered@),
            dict_below(d, rendered@.len()),
            all == views(names@),
            is_listing(all, d.dom()),
            i <= names@.len(),
            text@ + text_of(all.skip(i as int), d, r) == text_of(all, d, r),
        decreases names@.len() - i,
    {
        let ghost so_far = text@;
        let ghost rest = all.skip(i as int);
        assert(all[i as int] == names@[i as int]@);
        assert(all.contains(all[i as int]));
        assert(d.contains_key(all[i as int]));
        let m = sd.matrix(names[i].as_str());
        proof {
            lemma_flat_below(rows(m@), rendered@.len());
        }
        let ids = flatten(m);
        text.append(names[i].as_str());
        text.push(' ');
        push_joined(&mut text, rendered, &ids);
        text.push('\n');
        i += 1;
        assert(rest.drop_first() =~= all.skip(i as int));
        assert(rest[0] == all[i - 1]);
        assert(text@ + text_of(all.skip(i as int), d, r) =~= so_far + text_of(rest, d, r));
    }
    assert(all.skip(names@.len() as int) =~= Seq::empty());
    assert(text@ + text_of(all.skip(names@.len() as int), d, r) =~= text@);
    text
}

/// A line of a checkpoint: the name of a matrix, and the words after it.
pub struct Parsed {
    pub name: Seq<char>,
    pub words: Seq<Seq<char>>,
}

/// What a line of a checkpoint says.
pub open spec fn parsed_line(line: Seq<char>) -> Parsed {
    let (name, rest) = split_at_space(line);
    Parsed { name, words: words_of(rest) }
}

/// What the lines of a checkpoint say.
pub open spec fn parsed(text: Seq<char>) -> Seq<Parsed> {
    lines_of(text).map_values(|line: Seq<char>| parsed_line(line))
}

/// A line of a checkpoint: the name of a matrix, and the words after it.
pub struct ModelLine {
    pub name: String,
    pub words: Vec<String>,
}

impl View for ModelLine {
    type V = Parsed;

    open spec fn view(&self) -> Parsed {
        Parsed { name: self.name@, words: views(self.words@) }
    }
}

/// What some lines of a checkpoint say.
pub open spec fn line_views(lines: Seq<ModelLine>) -> Seq<Parsed> {
    Seq::new(lines.len(), |i: int| lines[i]@)
}

/// The lines of a checkpoint.
pub fn parse_model(text: &str) -> (out: Vec<ModelLine>)
    ensures
        line_views(out@) == parsed(text@),
{
    let found = lines(text);
    let ghost all = parsed(text@);
    let mut out: Vec<ModelLine> = Vec::new();
    let mut i: usize = 0;
    while i < found.len()
        invariant
            views(found@) == lines_of(text@),
            all == parsed(text@),
            i <= found@.len(),
            line_views(out@) == all.take(i as int),
        decreases found@.len() - i,
    {
        let ghost so_far = line_views(out@);
        assert(views(found@)[i as int] == found@[i as int]@);
        let (name, rest) = split_once(found[i].as_str());
        let line = ModelLine { name, words: words(rest.as_str()) };
        assert(line@ == all[i as int]);
        out.push(line);
        i += 1;
        assert(line_views(out@) =~= so_far.push(line@));
        assert(line_views(out@) =~= all.take(i as int));
    }
    assert(all.take(all.len() as int) =~= all);
    out
}

/// The numbers of rows and columns of the matrix under a name.
pub open spec fn shape_of(name: Seq<char>, vocab_size: nat) -> (nat, nat) {
    let width = N_EMBD as nat;
    if name == "wte"@ || name == "lm_head"@ {
        (vocab_size, width)
    } else if name == "wpe"@ {
        (BLOCK_SIZE as nat, width)
    } else if has_part(name, "mlp_fc1"@) {
        (4 * width, width)
    } else if has_part(name, "mlp_fc2"@) {
        (width, 4 * width)
    } else {
        (width, width)
    }
}

/// The numbers of rows and columns of the matrix under a name.
pub fn shape(name: &str, vocab_size: usize) -> (dims: (usize, usize))
    ensures
        dims.0 == shape_of(name@, vocab_size as nat).0,
        dims.1 == shape_of(name@, vocab_size as nat).1,
{
    if same(name, "wte") || same(name, "lm_head") {
        (vocab_size, N_EMBD)
    } else if same(name, "wpe") {
        (BLOCK_SIZE, N_EMBD)
    } else if contains(name, "mlp_fc1") {
        (4 * N_EMBD, N_EMBD)
    } else if contains(name, "mlp_fc2") {
        (N_EMBD, 4 * N_EMBD)
    } else {
        (N_EMBD, N_EMBD)
    }
}

/// The matrix that a line describes.
pub open spec fn shape_on(line: Parsed, vocab_size: nat) -> Shape {
    let (nrows, ncols) = shape_of(line.name, vocab_size);
    Shape { name: line.name, rows: nrows, cols: ncols }
}

/// The matrices that the lines of a checkpoint describe.
pub open spec fn load_layout(ls: Seq<Parsed>, vocab_size: nat) -> Seq<Shape> {
    Seq::new(ls.len(), |i: int| shape_on(ls[i], vocab_size))
}

/// Whether a line has a word for every entry of its matrix.
pub open spec fn line_fits(line: Parsed, vocab_size: nat) -> bool {
    shape_on(line, vocab_size).rows * shape_on(line, vocab_size).cols <= line.words.len()
}

/// Whether every line has a word for every entry of its matrix, and all entries
/// can be numbered.
pub open spec fn loadable(ls: Seq<Parsed>, vocab_size: nat) -> bool {
    &&& forall|i: int| 0 <= i < ls.len() ==> line_fits(#[trigger] ls[i], vocab_size)
    &&& size_of(load_layout(ls, vocab_size)) <= usize::MAX
}

/// Where the parameters of a layout are read from: the number of a line, and the
/// number of a word on it. The entries of a matrix are the first words, in order.
pub open spec fn sources_of(layout: Seq<Shape>) -> Seq<(usize, usize)>
    decreases layout.len(),
{
    if layout.len() == 0 {
        Seq::empty()
    } else {
        sources_of(layout.drop_last()) + Seq::new(
            layout.last().rows * layout.last().cols,
            |j: int| ((layout.len() - 1) as usize, j as usize),
        )
    }
}

/// A model whose parameters are to be read from the lines of a checkpoint.
pub struct LoadedModel {
    pub model: Model,
    /// For each parameter, the line and the word that hold it.
    pub sources: Vec<(usize, usize)>,
}

proof fn lemma_size_take(layout: Seq<Shape>, i: int)
    requires
        0 <= i <= layout.len(),
    ensures
        size_of(layout.take(i)) <= size_of(layout),
    decreases layout.len(),
{
    if i == layout.len() {
        assert(layout.take(i) =~= layout);
    } else {
        lemma_size_take(layout.drop_last(), i);
        assert(layout.drop_last().take(i) =~= layout.take(i));
        assert(layout.last().rows * layout.last().cols >= 0) by (nonlinear_arith)
            requires
                layout.last().rows >= 0,
                layout.last().cols >= 0,
        ;
    }
}

/// Whether the lines of a checkpoint can be loaded.
pub fn is_loadable(ls: &Vec<ModelLine>, vocab_size: usize) -> (b: bool)
    ensures
        b == loadable(line_views(ls@), vocab_size as nat),
{
    let ghost all = line_views(ls@);
    let ghost v = vocab_size as nat;
    let ghost layout = load_layout(all, v);
    let mut sum: usize = 0;
    let mut i: usize = 0;
    assert(layout.take(0) =~= Seq::empty());
    while i < ls.len()
        invariant
            all == line_views(ls@),
            v == vocab_size,
            layout == load_layout(all, v),
            i <= ls@.len(),
            sum == size_of(layout.take(i as int)),
            forall|k: int| 0 <= k < i ==> line_fits(#[trigger] all[k], v),
        decreases ls@.len() - i,
    {
        let (nrows, ncols) = shape(ls[i].name.as_str(), vocab_size);
        proof {
            assert(all[i as int] == ls@[i as int]@);
            assert(layout[i as int] == shape_on(all[i as int], v));
            assert(layout.take(i + 1).drop_last() =~= layout.take(i as int));
            assert(layout.take(i + 1).last() == layout[i as int]);
            lemma_size_take(layout, i + 1);
            assert(all[i as int].words.len() == ls@[i as int].words@.len());
        }
        match nrows.checked_mul(ncols) {
            Some(count) => {
                if ls[i].words.len() < count {
                    assert(!line_fits(all[i as int], v));
                    return false;
                }
                match sum.checked_add(count) {
                    Some(more) => {
                        sum = more;
                    },
                    None => {
                        return false;
                    },
                }
            },
            None => {
                return false;
            },
        }
        i += 1;
    }
    assert(layout.take(layout.len() as int) =~= layout);
    true
}

/// The model that the lines of a checkpoint describe.
pub fn load_model(ls: &Vec<ModelLine>, vocab_size: usize) -> (loaded: LoadedModel)
    requires
        loadable(line_views(ls@), vocab_size as nat),
    ensures
        loaded.model.holds(load_layout(line_views(ls@), vocab_size as nat)),
        loaded.sources@ == sources_of(load_layout(line_views(ls@), vocab_size as nat)),
{
    let ghost all = line_views(ls@);
    let ghost v = vocab_size as nat;
    let ghost layout = load_layout(all, v);
    let mut model = Model::empty();
    let mut sources: Vec<(usize, usize)> = Vec::new();
    let mut i: usize = 0;
    assert(layout.take(0) =~= Seq::empty());
    while i < ls.len()
        invariant
            all == line_views(ls@),
            v == vocab_size,
            layout == load_layout(all, v),
            loadable(all, v),
            i <= ls@.len(),
            model.holds(layout.take(i as int)),
            sources@ == sources_of(layout.take(i as int)),
        decreases ls@.len() - i,
    {
        let ghost done = layout.take(i as int);
        let ghost so_far = sources@;
        let (nrows, ncols) = shape(ls[i].name.as_str(), vocab_size);
        let ghost next = layout[i as int];
        proof {
            assert(all[i as int] == ls@[i as int]@);
            assert(next == shape_on(all[i as int], v));
            assert(next == (Shape {
                name: ls@[i as int].name@,
                rows: nrows as nat,
                cols: ncols as nat,
            }));
            assert(layout.take(i + 1).drop_last() =~= done);
            assert(layout.take(i + 1).last() == next);
            assert(done.push(next) =~= layout.take(i + 1));
            lemma_size_take(layout, i + 1);
        }
        model.extend(Ghost(done), ls[i].name.clone(), nrows, ncols);
        let count: usize = nrows * ncols;
        let ghost added = Seq::new(count as nat, |j: int| (i, j as usize));
        let mut j: usize = 0;
        assert(sources@ =~= so_far + added.take(0));
        while j < count
            invariant
                j <= count,
                added == Seq::new(count as nat, |j: int| (i, j as usize)),
                sources@ == so_far + added.take(j as int),
            decreases count - j,
        {
            sources.push((i, j));
            j += 1;
            assert(sources@ =~= so_far + added.take(j as int));
        }
        assert(added.take(count as int) =~= added);
        assert(sources@ =~= sources_of(layout.take(i + 1))) by {
            let there = Seq::new(
                next.rows * next.cols,
                |j: int| ((layout.take(i + 1).len() - 1) as usize, j as usize),
            );
            assert(there =~= added);
        }
        i += 1;
    }
    assert(layout.take(layout.len() as int) =~= layout);
    LoadedModel { model, sources }
}

/// Words are joined by single spaces, however many there are.
pub proof fn law_joined(ws: Seq<Seq<char>>, w: Seq<char>)
    ensures
        joined(Seq::empty()).len() == 0,
        joined(seq![w]) == w,
        ws.len() > 0 ==> joined(ws.push(w)) == joined(ws) + seq![' '] + w,
    decreases ws.len(),
{
    if ws.len() == 1 {
        assert(ws.push(w).drop_first() =~= seq![w]);
        assert(ws.push(w)[0] == ws[0]);
        assert(joined(ws.push(w)) == ws[0] + seq![' '] + joined(seq![w]));
        assert(joined(ws.push(w)) =~= joined(ws) + seq![' '] + w);
    } else if ws.len() > 1 {
        let rest = ws.drop_first();
        law_joined(rest, w);
        assert(ws.push(w).drop_first() =~= rest.push(w));
        assert(ws.push(w)[0] == ws[0]);
        assert(joined(ws.push(w)) =~= joined(ws) + seq![' '] + w);
    }
}

/// A checkpoint has, for one more matrix, one more line: the name, a space, the joined
/// texts of the entries, and a line feed.
pub proof fn law_text_of_one_more(
    names: Seq<Seq<char>>,
    name: Seq<char>,
    d: Dict,
    rendered: Seq<Seq<char>>,
)
    ensures
        text_of(Seq::empty(), d, rendered).len() == 0,
        text_of(names.push(name), d, rendered) == text_of(names, d, rendered) + (name + seq![' ']
            + joined(pick(rendered, flat(d[name]))) + seq!['\n']),
    decreases names.len(),
{
    let last = name + seq![' '] + joined(pick(rendered, flat(d[name]))) + seq!['\n'];
    if names.len() == 0 {
        assert(names.push(name).drop_first() =~= Seq::empty());
        assert(text_of(names.push(name), d, rendered) == last + text_of(
            names.push(name).drop_first(),
            d,
            rendered,
        ));
        assert(text_of(names.push(name), d, rendered) =~= text_of(names, d, rendered) + last);
    } else {
        let rest = names.drop_first();
        law_text_of_one_more(rest, name, d, rendered);
        assert(names.push(name).drop_first() =~= rest.push(name));
        assert(names.push(name)[0] == names[0]);
        assert(text_of(names.push(name), d, rendered) =~= text_of(names, d, rendered) + last);
    }
}

/// The entries of a matrix with one more row are those of the rows before, and then those
/// of that row.
pub proof fn law_row_by_row(m: Seq<Seq<usize>>, row: Seq<usize>)
    ensures
        flat(Seq::empty()).len() == 0,
        flat(m.push(row)) == flat(m) + row,
{
    assert(m.push(row).drop_last() =~= m);
}

/// The shapes that names call for, whatever the size of the vocabulary.
pub proof fn law_shapes(name: Seq<char>, vocab_size: nat)
    ensures
        ({
            let (nrows, ncols) = shape_of(name, vocab_size);
            let e = N_EMBD as nat;
            let outer = name == "wte"@ || name == "lm_head"@;
            let fc1 = exists|i: int|
                0 <= i <= name.len() - 7 && #[trigger] name.subrange(i, i + 7) == "mlp_fc1"@;
            let fc2 = exists|i: int|
                0 <= i <= name.len() - 7 && #[trigger] name.subrange(i, i + 7) == "mlp_fc2"@;
            let inner = !outer && name != "wpe"@;
            &&& outer ==> nrows == vocab_size && ncols == e
            &&& name == "wpe"@ ==> nrows == BLOCK_SIZE && ncols == e
            &&& inner && fc1 ==> nrows == 4 * e && ncols == e
            &&& inner && !fc1 && fc2 ==> nrows == e && ncols == 4 * e
            &&& inner && !fc1 && !fc2 ==> nrows == e && ncols == e
        }),
{
    reveal_strlit("mlp_fc1");
    reveal_strlit("mlp_fc2");
    reveal_strlit("wte");
    reveal_strlit("wpe");
    reveal_strlit("lm_head");
    assert("wpe"@[1] == 'p' && "wte"@[1] == 't');
    assert("wpe"@.len() == 3 && "lm_head"@.len() == 7);
    if exists|i: int| 0 <= i <= name.len() - 7 && #[trigger] name.subrange(i, i + 7)
        == "mlp_fc1"@ {
        let i = choose|i: int|
            0 <= i <= name.len() - 7 && #[trigger] name.subrange(i, i + 7) == "mlp_fc1"@;
        assert(part_at(name, "mlp_fc1"@, i));
    }
    if exists|i: int| 0 <= i <= name.len() - 7 && #[trigger] name.subrange(i, i + 7)
        == "mlp_fc2"@ {
        let i = choose|i: int|
            0 <= i <= name.len() - 7 && #[trigger] name.subrange(i, i + 7) == "mlp_fc2"@;
        assert(part_at(name, "mlp_fc2"@, i));
    }
    if has_part(name, "mlp_fc1"@) {
        let i = choose|i: int| part_at(name, "mlp_fc1"@, i);
        assert(name.subrange(i, i + 7) == "mlp_fc1"@);
    }
    if has_part(name, "mlp_fc2"@) {
        let i = choose|i: int| part_at(name, "mlp_fc2"@, i);
        assert(name.subrange(i, i + 7) == "mlp_fc2"@);
    }
}

/// A line says its name, which ends at the first space, and the words after it.
pub proof fn law_parsed_line(name: Seq<char>, rest: Seq<char>)
    requires
        forall|i: int| 0 <= i < name.len() ==> (#[trigger] name[i]) != ' ',
    ensures
        parsed_line(name + seq![' '] + rest).name == name,
        parsed_line(name + seq![' '] + rest).words == words_of(rest),
        parsed_line(name).name == name,
        parsed_line(name).words.len() == 0,
{
    law_split(name, rest);
    lemma_no_words();
}

proof fn lemma_no_words()
    ensures
        words_of(Seq::empty()).len() == 0,
{
    law_words(Seq::empty(), seq!['x'], Seq::empty());
}

/// A checkpoint is read line by line, each line by itself.
pub proof fn law_parsed_lines(line: Seq<char>, rest: Seq<char>)
    requires
        forall|i: int| 0 <= i < line.len() ==> (#[trigger] line[i]) != '\n',
        line.len() > 0 ==> line[line.len() - 1] != '\r',
    ensures
        parsed(Seq::empty()).len() == 0,
        parsed(line + seq!['\n'] + rest) == seq![parsed_line(line)] + parsed(rest),
{
    law_the_last_line(Seq::empty());
    law_a_line_feed_ends_a_line(line, rest);
    let found = lines_of(line + seq!['\n'] + rest);
    assert forall|i: int| 0 < i < found.len() implies #[trigger] found[i] == lines_of(rest)[i
        - 1] by {
        assert(found.drop_first()[i - 1] == found[i]);
    }
    assert(parsed(line + seq!['\n'] + rest) =~= seq![parsed_line(line)] + parsed(rest));
}

/// Lines can be loaded just where each has as many words as the shape that its name calls
/// for has entries, or more, and all entries can be numbered.
pub proof fn law_loadable(ls: Seq<Parsed>, vocab_size: nat, i: int)
    ensures
        ({
            let layout = load_layout(ls, vocab_size);
            &&& layout.len() == ls.len()
            &&& 0 <= i < ls.len() ==> layout[i].name == ls[i].name && (
                layout[i].rows,
                layout[i].cols,
            ) == shape_of(ls[i].name, vocab_size)
            &&& loadable(ls, vocab_size) && 0 <= i < ls.len() ==> layout[i].rows * layout[i].cols
                <= ls[i].words.len()
            &&& loadable(ls, vocab_size) <==> size_of(layout) <= usize::MAX && forall|k: int|
                0 <= k < ls.len() ==> shape_of((#[trigger] ls[k]).name, vocab_size).0 * shape_of(
                    ls[k].name,
                    vocab_size,
                ).1 <= ls[k].words.len()
        }),
{
    let layout = load_layout(ls, vocab_size);
    if loadable(ls, vocab_size) {
        assert forall|k: int| 0 <= k < ls.len() implies shape_of((#[trigger] ls[k]).name, vocab_size).0
            * shape_of(ls[k].name, vocab_size).1 <= ls[k].words.len() by {
            assert(line_fits(ls[k], vocab_size));
        }
    }
    if size_of(layout) <= usize::MAX && forall|k: int|
        0 <= k < ls.len() ==> shape_of((#[trigger] ls[k]).name, vocab_size).0 * shape_of(
            ls[k].name,
            vocab_size,
        ).1 <= ls[k].words.len() {
        assert forall|k: int| 0 <= k < ls.len() implies line_fits(#[trigger] ls[k], vocab_size) by {}
    }
}

} // verus!
