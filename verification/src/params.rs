//! The parameters of the model: named matrices of tape positions.

use vstd::prelude::*;
use vstd::string::*;

use crate::config::{BLOCK_SIZE, N_EMBD, N_LAYER};
use crate::layers::tape_grows_to_itself;
use crate::tape::{leaf, rows, Expr, Matrix, Op, Tape};
use crate::text::{
    decimal, law_decimal_notation, lemma_decimal_digits, lemma_decimal_injective, lemma_leading_is,
    number_of, other_than, push_decimal, same, views,
};

verus! {

/// Named matrices, as the mathematical object that a [`StateDict`] stands for.
pub type Dict = Map<Seq<char>, Seq<Seq<usize>>>;

/// Named matrices, no two under one name.
pub struct StateDict {
    pub names: Vec<String>,
    pub mats: Vec<Matrix>,
}

impl View for StateDict {
    type V = Dict;

    open spec fn view(&self) -> Dict {
        Map::new(
            |name: Seq<char>| views(self.names@).contains(name),
            |name: Seq<char>| rows(self.mats@[views(self.names@).index_of(name)]@),
        )
    }
}

impl StateDict {
    pub open spec fn wf(self) -> bool {
        &&& self.names@.len() == self.mats@.len()
        &&& views(self.names@).no_duplicates()
    }

    /// The matrices, in the order in which their names were first inserted.
    pub open spec fn matrices(self) -> Seq<Seq<Seq<usize>>> {
        Seq::new(self.mats@.len(), |i: int| rows(self.mats@[i]@))
    }

    /// What is known under the name at position `i`.
    proof fn lemma_entry(self, i: int)
        requires
            self.wf(),
            0 <= i < self.names@.len(),
        ensures
            self@.contains_key(self.names@[i]@),
            self@[self.names@[i]@] == rows(self.mats@[i]@),
    {
        assert(views(self.names@)[i] == self.names@[i]@);
        assert(views(self.names@).contains(self.names@[i]@));
    }

    /// No matrices.
    pub fn new() -> (sd: StateDict)
        ensures
            sd.wf(),
            sd@ == Dict::empty(),
            sd.matrices().len() == 0,
    {
        let sd = StateDict { names: Vec::new(), mats: Vec::new() };
        assert(sd@ =~= Dict::empty());
        sd
    }

    /// The position of a name, or the number of names where it is not one of them.
    fn find(&self, name: &str) -> (p: usize)
        requires
            self.wf(),
        ensures
            p <= self.names@.len(),
            p < self.names@.len() ==> self.names@[p as int]@ == name@,
            p == self.names@.len() ==> !self@.contains_key(name@),
    {
        let mut p: usize = 0;
        while p < self.names.len()
            invariant
                self.wf(),
                p <= self.names@.len(),
                forall|i: int| 0 <= i < p ==> (#[trigger] self.names@[i])@ != name@,
            decreases self.names@.len() - p,
        {
            if same(self.names[p].as_str(), name) {
                return p;
            }
            p += 1;
        }
        p
    }

    /// The matrix under a name.
    pub fn get(&self, name: &str) -> (m: Option<&Matrix>)
        requires
            self.wf(),
        ensures
            m is Some <==> self@.contains_key(name@),
            m matches Some(m) ==> rows(m@) == self@[name@],
    {
        let p = self.find(name);
        if p < self.names.len() {
            proof {
                self.lemma_entry(p as int);
            }
            Some(&self.mats[p])
        } else {
            None
        }
    }

    /// The matrix under a name that is there.
    pub fn matrix(&self, name: &str) -> (m: &Matrix)
        requires
            self.wf(),
            self@.contains_key(name@),
        ensures
            rows(m@) == self@[name@],
    {
        let p = self.find(name);
        proof {
            self.lemma_entry(p as int);
        }
        &self.mats[p]
    }

    /// Puts a matrix under a name, in place of one that is already there.
    pub fn insert(&mut self, name: String, m: Matrix)
        requires
            old(self).wf(),
        ensures
            final(self).wf(),
            final(self)@ == old(self)@.insert(name@, rows(m@)),
            old(self)@.contains_key(name@) ==> {
                &&& views(final(self).names@) == views(old(self).names@)
                &&& final(self).matrices() == old(self).matrices().update(
                    views(old(self).names@).index_of(name@),
                    rows(m@),
                )
            },
            !old(self)@.contains_key(name@) ==> {
                &&& views(final(self).names@) == views(old(self).names@).push(name@)
                &&& final(self).matrices() == old(self).matrices().push(rows(m@))
            },
    {
        let ghost start = *self;
        let ghost key = name@;
        let ghost value = rows(m@);
        let p = self.find(name.as_str());
        if p < self.names.len() {
            proof {
                start.lemma_entry(p as int);
            }
            self.mats.set(p, m);
            assert(views(self.names@) == views(start.names@));
            assert(views(start.names@)[p as int] == key);
            assert(views(start.names@).index_of(key) == p);
            assert(self.matrices() =~= start.matrices().update(p as int, value));
        } else {
            self.names.push(name);
            self.mats.push(m);
            assert(views(self.names@) =~= views(start.names@).push(key));
            assert(!views(start.names@).contains(key));
            assert(self.matrices() =~= start.matrices().push(value));
        }
        assert(self@ =~= start@.insert(key, value)) by {
            let now = *self;
            assert forall|k: Seq<char>| now@.contains_key(k) <==> start@.insert(
                key,
                value,
            ).contains_key(k) by {
                if start@.contains_key(k) {
                    let i = views(start.names@).index_of(k);
                    now.lemma_entry(i);
                }
                if now@.contains_key(k) && k != key {
                    let i = views(now.names@).index_of(k);
                    start.lemma_entry(i);
                }
                now.lemma_entry(p as int);
            }
            assert forall|k: Seq<char>| #[trigger] now@.contains_key(k) implies now@[k]
                == start@.insert(key, value)[k] by {
                let i = views(now.names@).index_of(k);
                now.lemma_entry(i);
                if k != key {
                    start.lemma_entry(i);
                } else {
                    now.lemma_entry(p as int);
                }
            }
        }
    }
}

/// How many entries a matrix has.
pub open spec fn entry_count(m: Seq<Seq<usize>>) -> nat
    decreases m.len(),
{
    if m.len() == 0 {
        0
    } else {
        entry_count(m.drop_last()) + m.last().len()
    }
}

/// How many entries some matrices have together.
pub open spec fn total_count(ms: Seq<Seq<Seq<usize>>>) -> nat
    decreases ms.len(),
{
    if ms.len() == 0 {
        0
    } else {
        total_count(ms.drop_last()) + entry_count(ms.last())
    }
}

proof fn lemma_entry_count_take(m: Seq<Seq<usize>>, i: int)
    requires
        0 <= i <= m.len(),
    ensures
        entry_count(m.take(i)) <= entry_count(m),
    decreases m.len(),
{
    if i == m.len() {
        assert(m.take(i) =~= m);
    } else {
        lemma_entry_count_take(m.drop_last(), i);
        assert(m.drop_last().take(i) =~= m.take(i));
    }
}

proof fn lemma_total_count_take(ms: Seq<Seq<Seq<usize>>>, i: int)
    requires
        0 <= i <= ms.len(),
    ensures
        total_count(ms.take(i)) <= total_count(ms),
    decreases ms.len(),
{
    if i == ms.len() {
        assert(ms.take(i) =~= ms);
    } else {
        lemma_total_count_take(ms.drop_last(), i);
        assert(ms.drop_last().take(i) =~= ms.take(i));
    }
}

/// How many entries a matrix has.
pub fn count_entries(m: &Matrix) -> (n: usize)
    requires
        entry_count(rows(m@)) <= usize::MAX,
    ensures
        n == entry_count(rows(m@)),
{
    let ghost all = rows(m@);
    let mut n: usize = 0;
    let mut r: usize = 0;
    while r < m.len()
        invariant
            all == rows(m@),
            entry_count(all) <= usize::MAX,
            r <= m@.len(),
            n == entry_count(all.take(r as int)),
        decreases m@.len() - r,
    {
        proof {
            lemma_entry_count_take(all, r + 1);
            assert(all.take(r + 1).drop_last() =~= all.take(r as int));
            assert(all.take(r + 1).last() == m@[r as int]@);
        }
        n += m[r].len();
        r += 1;
    }
    assert(all.take(all.len() as int) =~= all);
    n
}

/// How many parameters the matrices hold together.
pub fn count_params(sd: &StateDict) -> (n: usize)
    requires
        sd.wf(),
        total_count(sd.matrices()) <= usize::MAX,
    ensures
        n == total_count(sd.matrices()),
{
    let ghost all = sd.matrices();
    let mut n: usize = 0;
    let mut i: usize = 0;
    while i < sd.mats.len()
        invariant
            all == sd.matrices(),
            total_count(all) <= usize::MAX,
            i <= sd.mats@.len(),
            n == total_count(all.take(i as int)),
        decreases sd.mats@.len() - i,
    {
        proof {
            lemma_total_count_take(all, i + 1);
            assert(all.take(i + 1).drop_last() =~= all.take(i as int));
            assert(all.take(i + 1).last() == rows(sd.mats@[i as int]@));
        }
        n += count_entries(&sd.mats[i]);
        i += 1;
    }
    assert(all.take(all.len() as int) =~= all);
    n
}

/// The name of a part of layer `li`.
pub open spec fn layer_part(li: nat, part: Seq<char>) -> Seq<char> {
    "layer"@ + decimal(li) + "."@ + part
}

/// The name of a part of layer `li`.
pub fn layer_name(li: usize, part: &str) -> (name: String)
    ensures
        name@ == layer_part(li as nat, part@),
{
    let mut name = "layer".to_string();
    push_decimal(&mut name, li);
    name.append(".");
    name.append(part);
    name
}

/// A matrix to be laid out: its name and its numbers of rows and columns.
pub struct Shape {
    pub name: Seq<char>,
    pub rows: nat,
    pub cols: nat,
}

/// How many parameters some matrices need.
pub open spec fn size_of(layout: Seq<Shape>) -> nat
    decreases layout.len(),
{
    if layout.len() == 0 {
        0
    } else {
        size_of(layout.drop_last()) + layout.last().rows * layout.last().cols
    }
}

/// The matrix whose entries are the positions from `start` on, row by row.
pub open spec fn grid(start: nat, nrows: nat, ncols: nat) -> Seq<Seq<usize>> {
    Seq::new(nrows, |r: int| Seq::new(ncols, |c: int| (start + r * ncols + c) as usize))
}

/// The matrices of a layout, one after the other from the start of the tape. A
/// later matrix takes the place of an earlier one of the same name.
pub open spec fn laid_out(layout: Seq<Shape>) -> Dict
    decreases layout.len(),
{
    if layout.len() == 0 {
        Dict::empty()
    } else {
        let before = layout.drop_last();
        let last = layout.last();
        laid_out(before).insert(last.name, grid(size_of(before), last.rows, last.cols))
    }
}

/// The values of a tape, and `n` parameters after them.
pub open spec fn with_parameters(values: Seq<Expr>, n: nat) -> Seq<Expr> {
    values + Seq::new(n, |i: int| leaf(Op::Param((values.len() + i) as usize)))
}

/// The first `n` parameters of a tape that starts with them.
pub open spec fn parameters(n: nat) -> Seq<Expr> {
    Seq::new(n, |i: int| leaf(Op::Param(i as usize)))
}

/// A tape and the parameters on it.
pub struct Model {
    pub tape: Tape,
    pub params: StateDict,
}

impl Model {
    /// Whether the tape holds the parameters of a layout, and nothing else.
    pub open spec fn holds(self, layout: Seq<Shape>) -> bool {
        &&& self.tape.wf()
        &&& self.params.wf()
        &&& self.params@ == laid_out(layout)
        &&& self.tape@ == parameters(size_of(layout))
    }
}

/// Appends the parameters of a matrix.
pub fn make_matrix(tape: &mut Tape, nout: usize, nin: usize) -> (m: Matrix)
    requires
        old(tape).wf(),
        old(tape)@.len() + nout * nin <= usize::MAX,
    ensures
        final(tape).wf(),
        old(tape).grows_to(*final(tape)),
        final(tape)@ == with_parameters(old(tape)@, (nout * nin) as nat),
        rows(m@) == grid(old(tape)@.len(), nout as nat, nin as nat),
{
    let ghost first = *tape;
    let ghost start = tape@.len();
    let ghost goal = grid(start, nout as nat, nin as nat);
    let mut m: Matrix = Vec::new();
    let mut r: usize = 0;
    proof {
        tape_grows_to_itself(first);
    }
    assert(tape@ =~= with_parameters(first@, 0));
    while r < nout
        invariant
            start == first@.len(),
            start + nout * nin <= usize::MAX,
            goal == grid(start, nout as nat, nin as nat),
            r <= nout,
            tape.wf(),
            first.grows_to(*tape),
            tape@ == with_parameters(first@, (r * nin) as nat),
            m@.len() == r,
            forall|k: int| 0 <= k < r ==> (#[trigger] m@[k])@ == goal[k],
        decreases nout - r,
    {
        let ghost base = (r * nin) as nat;
        assert(base + nin <= nout * nin) by (nonlinear_arith)
            requires
                base == r * nin,
                r + 1 <= nout,
        ;
        let mut row: Vec<usize> = Vec::new();
        let mut c: usize = 0;
        while c < nin
            invariant
                start == first@.len(),
                base == r * nin,
                start + base + nin <= usize::MAX,
                c <= nin,
                tape.wf(),
                first.grows_to(*tape),
                tape@ == with_parameters(first@, (base + c) as nat),
                row@.len() == c,
                forall|k: int| 0 <= k < c ==> #[trigger] row@[k] == (start + base + k) as usize,
            decreases nin - c,
        {
            let ghost before = tape@;
            let id = tape.param();
            row.push(id);
            c += 1;
            assert(tape@ =~= with_parameters(first@, (base + c) as nat)) by {
                assert forall|k: int| 0 <= k < before.len() implies tape@[k] == before[k] by {}
            }
        }
        assert(row@ =~= goal[r as int]);
        m.push(row);
        r += 1;
        assert((r - 1) * nin + nin == r * nin) by (nonlinear_arith);
    }
    assert(rows(m@) =~= goal);
    m
}

/// How many entries a grid has.
proof fn lemma_grid_count(start: nat, nrows: nat, ncols: nat)
    ensures
        entry_count(grid(start, nrows, ncols)) == nrows * ncols,
    decreases nrows,
{
    let m = grid(start, nrows, ncols);
    if nrows > 0 {
        lemma_grid_count(start, (nrows - 1) as nat, ncols);
        assert(m.drop_last() =~= grid(start, (nrows - 1) as nat, ncols));
        assert(m.last().len() == ncols);
        assert((nrows - 1) * ncols + ncols == nrows * ncols) by (nonlinear_arith);
    } else {
        assert(nrows * ncols == 0) by (nonlinear_arith)
            requires
                nrows == 0,
        ;
    }
}

/// A matrix more needs as many parameters more as it has entries.
proof fn lemma_size_push(layout: Seq<Shape>, next: Shape)
    ensures
        size_of(layout.push(next)) == size_of(layout) + next.rows * next.cols,
{
    assert(layout.push(next).drop_last() =~= layout);
}

impl Model {
    /// A model without parameters.
    pub fn empty() -> (model: Model)
        ensures
            model.holds(Seq::empty()),
            model.params.matrices().len() == 0,
    {
        let model = Model { tape: Tape::empty(), params: StateDict::new() };
        assert(model.tape@ =~= parameters(0));
        model
    }

    /// Adds a matrix of new parameters.
    pub(crate) fn extend(
        &mut self,
        Ghost(layout): Ghost<Seq<Shape>>,
        name: String,
        nrows: usize,
        ncols: usize,
    )
        requires
            old(self).holds(layout),
            size_of(layout) + nrows * ncols <= usize::MAX,
        ensures
            final(self).holds(
                layout.push((Shape { name: name@, rows: nrows as nat, cols: ncols as nat })),
            ),
            laid_out(layout).contains_key(name@) || total_count(final(self).params.matrices())
                == total_count(old(self).params.matrices()) + nrows * ncols,
    {
        let ghost next = Shape { name: name@, rows: nrows as nat, cols: ncols as nat };
        let ghost start = self.params.matrices();
        let ghost n = size_of(layout);
        assert(layout.push(next).drop_last() =~= layout);
        let m = make_matrix(&mut self.tape, nrows, ncols);
        self.params.insert(name, m);
        proof {
            lemma_grid_count(n, nrows as nat, ncols as nat);
            let now = self.params.matrices();
            if !laid_out(layout).contains_key(next.name) {
                assert(now.drop_last() =~= start);
            }
            assert(self.tape@ =~= parameters(n + (nrows * ncols) as nat));
        }
    }
}

/// The matrices of layer `li`.
pub open spec fn layer_layout(li: nat) -> Seq<Shape> {
    let width = N_EMBD as nat;
    seq![
        Shape { name: layer_part(li, "attn_wq"@), rows: width, cols: width },
        Shape { name: layer_part(li, "attn_wk"@), rows: width, cols: width },
        Shape { name: layer_part(li, "attn_wv"@), rows: width, cols: width },
        Shape { name: layer_part(li, "attn_wo"@), rows: width, cols: width },
        Shape { name: layer_part(li, "mlp_fc1"@), rows: 4 * width, cols: width },
        Shape { name: layer_part(li, "mlp_fc2"@), rows: width, cols: 4 * width },
    ]
}

/// The matrices of the first `n` layers.
pub open spec fn layers_layout(n: nat) -> Seq<Shape>
    decreases n,
{
    if n == 0 {
        Seq::empty()
    } else {
        layers_layout((n - 1) as nat) + layer_layout((n - 1) as nat)
    }
}

/// The matrices outside the layers.
pub open spec fn outer_layout(vocab_size: nat) -> Seq<Shape> {
    let width = N_EMBD as nat;
    seq![
        Shape { name: "wte"@, rows: vocab_size, cols: width },
        Shape { name: "wpe"@, rows: BLOCK_SIZE as nat, cols: width },
        Shape { name: "lm_head"@, rows: vocab_size, cols: width },
    ]
}

/// The matrices of a new model: the embeddings of tokens and positions, the head,
/// and then those of each layer.
pub open spec fn init_layout(vocab_size: nat) -> Seq<Shape> {
    outer_layout(vocab_size) + layers_layout(N_LAYER as nat)
}

/// How many parameters a new model has.
pub open spec fn init_size(vocab_size: nat) -> nat {
    (2 * vocab_size * N_EMBD + BLOCK_SIZE * N_EMBD + N_LAYER * (12 * N_EMBD * N_EMBD)) as nat
}

/// A layer has as many parameters more as its matrices have entries.
proof fn lemma_layer_size(layout: Seq<Shape>, li: nat)
    ensures
        size_of(layout + layer_layout(li)) == size_of(layout) + 12 * N_EMBD * N_EMBD,
{
    let parts = layer_layout(li);
    let l1 = layout.push(parts[0]);
    let l2 = l1.push(parts[1]);
    let l3 = l2.push(parts[2]);
    let l4 = l3.push(parts[3]);
    let l5 = l4.push(parts[4]);
    lemma_size_push(layout, parts[0]);
    lemma_size_push(l1, parts[1]);
    lemma_size_push(l2, parts[2]);
    lemma_size_push(l3, parts[3]);
    lemma_size_push(l4, parts[4]);
    lemma_size_push(l5, parts[5]);
    assert(l5.push(parts[5]) =~= layout + parts);
}

/// The matrices outside the layers and those of the first `n` layers.
proof fn lemma_layers_size(vocab_size: nat, n: nat)
    ensures
        size_of(outer_layout(vocab_size) + layers_layout(n)) == 2 * vocab_size * N_EMBD + BLOCK_SIZE
            * N_EMBD + n * (12 * N_EMBD * N_EMBD),
    decreases n,
{
    let outer = outer_layout(vocab_size);
    if n == 0 {
        let l0 = Seq::<Shape>::empty();
        let l1 = l0.push(outer[0]);
        let l2 = l1.push(outer[1]);
        lemma_size_push(l0, outer[0]);
        lemma_size_push(l1, outer[1]);
        lemma_size_push(l2, outer[2]);
        assert(l2.push(outer[2]) =~= outer + layers_layout(0));
    } else {
        let m = (n - 1) as nat;
        let each: int = 12 * N_EMBD * N_EMBD;
        lemma_layers_size(vocab_size, m);
        lemma_layer_size(outer + layers_layout(m), m);
        assert(outer + layers_layout(m) + layer_layout(m) =~= outer + layers_layout(n));
        assert((n - 1) * each + each == n * each) by (nonlinear_arith);
    }
}

/// How many parameters the matrices of a new model need.
pub proof fn lemma_init_size(vocab_size: nat)
    ensures
        size_of(init_layout(vocab_size)) == init_size(vocab_size),
{
    lemma_layers_size(vocab_size, N_LAYER as nat);
}

/// Whether no matrix of a layout has the name.
spec fn fresh(layout: Seq<Shape>, name: Seq<char>) -> bool {
    forall|i: int| 0 <= i < layout.len() ==> (#[trigger] layout[i]).name != name
}

/// A layout lays out the names in it, and no others.
pub proof fn lemma_laid_out_names(layout: Seq<Shape>, name: Seq<char>)
    ensures
        laid_out(layout).contains_key(name) <==> exists|i: int|
            0 <= i < layout.len() && (#[trigger] layout[i]).name == name,
    decreases layout.len(),
{
    if layout.len() > 0 {
        let before = layout.drop_last();
        lemma_laid_out_names(before, name);
        if exists|i: int| 0 <= i < before.len() && (#[trigger] before[i]).name == name {
            let i = choose|i: int| 0 <= i < before.len() && (#[trigger] before[i]).name == name;
            assert(layout[i].name == name);
        }
        if exists|i: int| 0 <= i < layout.len() && (#[trigger] layout[i]).name == name {
            let i = choose|i: int| 0 <= i < layout.len() && (#[trigger] layout[i]).name == name;
            if i < before.len() {
                assert(before[i].name == name);
            }
        }
        assert(layout[layout.len() - 1] == layout.last());
    }
}

/// The names of the parts of the layers differ, and from those outside the layers.
pub proof fn lemma_layer_names()
    ensures
        forall|l: nat, p: Seq<char>, m: nat, q: Seq<char>|
            #![trigger layer_part(l, p), layer_part(m, q)]
            layer_part(l, p) == layer_part(m, q) ==> l == m && p == q,
        forall|l: nat, p: Seq<char>| #[trigger]
            layer_part(l, p) != "wte"@ && layer_part(l, p) != "wpe"@ && layer_part(l, p)
                != "lm_head"@,
        "wte"@ != "wpe"@,
        "wte"@ != "lm_head"@,
        "wpe"@ != "lm_head"@,
{
    reveal_strlit("layer");
    reveal_strlit(".");
    reveal_strlit("wte");
    reveal_strlit("wpe");
    reveal_strlit("lm_head");
    assert forall|l: nat, p: Seq<char>, m: nat, q: Seq<char>|
        #![trigger layer_part(l, p), layer_part(m, q)]
        layer_part(l, p) == layer_part(m, q) implies l == m && p == q by {
        let s = layer_part(l, p).skip(5);
        let t = layer_part(m, q).skip(5);
        lemma_decimal_digits(l);
        lemma_decimal_digits(m);
        assert(s =~= decimal(l) + "."@ + p);
        assert(t =~= decimal(m) + "."@ + q);
        assert(s[decimal(l).len() as int] == '.');
        assert(t[decimal(m).len() as int] == '.');
        lemma_leading_is(s, other_than('.'), decimal(l).len());
        lemma_leading_is(t, other_than('.'), decimal(m).len());
        assert(decimal(l) =~= s.take(decimal(l).len() as int));
        assert(decimal(m) =~= t.take(decimal(m).len() as int));
        lemma_decimal_injective(l, m);
        assert(p =~= s.skip(decimal(l).len() as int + 1));
        assert(q =~= t.skip(decimal(m).len() as int + 1));
    }
    assert forall|l: nat, p: Seq<char>| #[trigger]
        layer_part(l, p) != "wte"@ && layer_part(l, p) != "wpe"@ && layer_part(l, p)
            != "lm_head"@ by {
        assert(layer_part(l, p)[0] == 'l');
        assert(layer_part(l, p)[1] == 'a');
        assert("wte"@[0] == 'w');
        assert("wpe"@[0] == 'w');
        assert("lm_head"@[1] == 'm');
    }
    assert("wte"@[1] == 't' && "wpe"@[1] == 'p');
    assert("wte"@.len() == 3 && "wpe"@.len() == 3 && "lm_head"@.len() == 7);
}

/// The parts of a layer have different names.
pub proof fn lemma_part_names()
    ensures
        "attn_wq"@ != "attn_wk"@,
        "attn_wq"@ != "attn_wv"@,
        "attn_wq"@ != "attn_wo"@,
        "attn_wk"@ != "attn_wv"@,
        "attn_wk"@ != "attn_wo"@,
        "attn_wv"@ != "attn_wo"@,
        "mlp_fc1"@ != "attn_wq"@,
        "mlp_fc1"@ != "attn_wk"@,
        "mlp_fc1"@ != "attn_wv"@,
        "mlp_fc1"@ != "attn_wo"@,
        "mlp_fc2"@ != "attn_wq"@,
        "mlp_fc2"@ != "attn_wk"@,
        "mlp_fc2"@ != "attn_wv"@,
        "mlp_fc2"@ != "attn_wo"@,
        "mlp_fc2"@ != "mlp_fc1"@,
{
    reveal_strlit("attn_wq");
    reveal_strlit("attn_wk");
    reveal_strlit("attn_wv");
    reveal_strlit("attn_wo");
    reveal_strlit("mlp_fc1");
    reveal_strlit("mlp_fc2");
    assert("attn_wq"@[6] == 'q' && "attn_wk"@[6] == 'k' && "attn_wv"@[6] == 'v' && "attn_wo"@[6]
        == 'o' && "mlp_fc1"@[6] == '1' && "mlp_fc2"@[6] == '2');
}

/// The matrices of the first `n` layers are named after those layers.
pub proof fn lemma_layers_layout(n: nat, i: int)
    requires
        0 <= i < layers_layout(n).len(),
    ensures
        exists|l: nat, k: int|
            l < n && 0 <= k < 6 && layers_layout(n)[i] == #[trigger] layer_layout(l)[k],
    decreases n,
{
    let before = layers_layout((n - 1) as nat);
    if i < before.len() {
        lemma_layers_layout((n - 1) as nat, i);
    } else {
        let k = i - before.len();
        assert(layers_layout(n)[i] == layer_layout((n - 1) as nat)[k]);
    }
}

/// No part of layer `n` is among the matrices of the layers before it.
proof fn lemma_next_layer_fresh(vocab_size: nat, n: nat, part: Seq<char>)
    ensures
        fresh(outer_layout(vocab_size) + layers_layout(n), layer_part(n, part)),
{
    let layout = outer_layout(vocab_size) + layers_layout(n);
    lemma_layer_names();
    assert forall|i: int| 0 <= i < layout.len() implies (#[trigger] layout[i]).name != layer_part(
        n,
        part,
    ) by {
        if i >= 3 {
            lemma_layers_layout(n, i - 3);
            let (l, k) = choose|l: nat, k: int|
                l < n && 0 <= k < 6 && layers_layout(n)[i - 3] == #[trigger] layer_layout(l)[k];
            assert(exists|q: Seq<char>| layout[i].name == #[trigger] layer_part(l, q));
        }
    }
}

impl Model {
    /// Adds a matrix under a new name.
    fn extend_fresh(
        &mut self,
        Ghost(layout): Ghost<Seq<Shape>>,
        name: String,
        nrows: usize,
        ncols: usize,
    )
        requires
            old(self).holds(layout),
            fresh(layout, name@),
            size_of(layout) + nrows * ncols <= usize::MAX,
            total_count(old(self).params.matrices()) == size_of(layout),
        ensures
            ({
                let next = layout.push(
                    (Shape { name: name@, rows: nrows as nat, cols: ncols as nat }),
                );
                &&& final(self).holds(next)
                &&& size_of(next) == size_of(layout) + nrows * ncols
                &&& total_count(final(self).params.matrices()) == size_of(next)
            }),
    {
        proof {
            lemma_laid_out_names(layout, name@);
            lemma_size_push(
                layout,
                Shape { name: name@, rows: nrows as nat, cols: ncols as nat },
            );
        }
        self.extend(Ghost(layout), name, nrows, ncols);
    }

    /// Adds the matrices of a new layer.
    fn extend_layer(&mut self, Ghost(layout): Ghost<Seq<Shape>>, li: usize)
        requires
            old(self).holds(layout),
            forall|part: Seq<char>| fresh(layout, #[trigger] layer_part(li as nat, part)),
            size_of(layout) + 12 * N_EMBD * N_EMBD <= usize::MAX,
            total_count(old(self).params.matrices()) == size_of(layout),
        ensures
            final(self).holds(layout + layer_layout(li as nat)),
            size_of(layout + layer_layout(li as nat)) == size_of(layout) + 12 * N_EMBD * N_EMBD,
            total_count(final(self).params.matrices()) == size_of(
                layout + layer_layout(li as nat),
            ),
    {
        let ghost parts = layer_layout(li as nat);
        proof {
            lemma_layer_names();
            lemma_part_names();
        }
        self.extend_fresh(Ghost(layout), layer_name(li, "attn_wq"), N_EMBD, N_EMBD);
        let ghost l1 = layout.push(parts[0]);
        self.extend_fresh(Ghost(l1), layer_name(li, "attn_wk"), N_EMBD, N_EMBD);
        let ghost l2 = l1.push(parts[1]);
        self.extend_fresh(Ghost(l2), layer_name(li, "attn_wv"), N_EMBD, N_EMBD);
        let ghost l3 = l2.push(parts[2]);
        self.extend_fresh(Ghost(l3), layer_name(li, "attn_wo"), N_EMBD, N_EMBD);
        let ghost l4 = l3.push(parts[3]);
        self.extend_fresh(Ghost(l4), layer_name(li, "mlp_fc1"), 4 * N_EMBD, N_EMBD);
        let ghost l5 = l4.push(parts[4]);
        self.extend_fresh(Ghost(l5), layer_name(li, "mlp_fc2"), N_EMBD, 4 * N_EMBD);
        let ghost l6 = l5.push(parts[5]);
        assert(l6 =~= layout + parts);
    }
}

/// Whether the parameters of a new model can be numbered.
pub fn init_fits(vocab_size: usize) -> (b: bool)
    ensures
        b == (init_size(vocab_size as nat) <= usize::MAX),
{
    match vocab_size.checked_mul(2 * N_EMBD) {
        Some(tokens) => tokens.checked_add(
            BLOCK_SIZE * N_EMBD + N_LAYER * (12 * N_EMBD * N_EMBD),
        ).is_some(),
        None => false,
    }
}

/// A new model: one parameter for every entry of every matrix, in order.
pub fn init_params(vocab_size: usize) -> (model: Model)
    requires
        init_size(vocab_size as nat) <= usize::MAX,
    ensures
        model.holds(init_layout(vocab_size as nat)),
        size_of(init_layout(vocab_size as nat)) == init_size(vocab_size as nat),
        total_count(model.params.matrices()) == init_size(vocab_size as nat),
{
    let ghost v = vocab_size as nat;
    let ghost outer = outer_layout(v);
    proof {
        lemma_layer_names();
    }
    let mut model = Model::empty();
    let ghost l0: Seq<Shape> = Seq::empty();
    model.extend_fresh(Ghost(l0), "wte".to_string(), vocab_size, N_EMBD);
    let ghost l1 = l0.push(outer[0]);
    model.extend_fresh(Ghost(l1), "wpe".to_string(), BLOCK_SIZE, N_EMBD);
    let ghost l2 = l1.push(outer[1]);
    model.extend_fresh(Ghost(l2), "lm_head".to_string(), vocab_size, N_EMBD);
    let ghost l3 = l2.push(outer[2]);
    assert(l3 =~= outer + layers_layout(0));
    let mut li: usize = 0;
    while li < N_LAYER
        invariant
            v == vocab_size,
            outer == outer_layout(v),
            init_size(v) <= usize::MAX,
            li <= N_LAYER,
            model.holds(outer + layers_layout(li as nat)),
            size_of(outer + layers_layout(li as nat)) == 2 * v * N_EMBD + BLOCK_SIZE * N_EMBD + li
                * (12 * N_EMBD * N_EMBD),
            total_count(model.params.matrices()) == size_of(outer + layers_layout(li as nat)),
        decreases N_LAYER - li,
    {
        let ghost layout = outer + layers_layout(li as nat);
        proof {
            assert forall|part: Seq<char>| fresh(layout, #[trigger] layer_part(li as nat, part)) by {
                lemma_next_layer_fresh(v, li as nat, part);
            }
        }
        let ghost each: int = 12 * N_EMBD * N_EMBD;
        assert(li * each + each == (li + 1) * each) by (nonlinear_arith);
        assert((li + 1) * each <= N_LAYER * each) by (nonlinear_arith)
            requires
                li + 1 <= N_LAYER,
                each >= 0,
        ;
        model.extend_layer(Ghost(layout), li);
        assert(layout + layer_layout(li as nat) =~= outer + layers_layout((li + 1) as nat));
        li += 1;
    }
    model
}

/// The matrices of a new model: which there are, and how many rows and columns they have,
/// whatever the size of the vocabulary.
pub proof fn law_matrices_of_a_new_model(vocab_size: nat, l: nat)
    requires
        l < N_LAYER,
    ensures
        ({
            let layout = init_layout(vocab_size);
            let e = N_EMBD as nat;
            let at = 3 + 6 * l as int;
            &&& layout.len() == 3 + 6 * N_LAYER
            &&& layout[0] == (Shape { name: "wte"@, rows: vocab_size, cols: e })
            &&& layout[1] == (Shape { name: "wpe"@, rows: BLOCK_SIZE as nat, cols: e })
            &&& layout[2] == (Shape { name: "lm_head"@, rows: vocab_size, cols: e })
            &&& layout[at] == (Shape { name: layer_part(l, "attn_wq"@), rows: e, cols: e })
            &&& layout[at + 1] == (Shape { name: layer_part(l, "attn_wk"@), rows: e, cols: e })
            &&& layout[at + 2] == (Shape { name: layer_part(l, "attn_wv"@), rows: e, cols: e })
            &&& layout[at + 3] == (Shape { name: layer_part(l, "attn_wo"@), rows: e, cols: e })
            &&& layout[at + 4] == (Shape { name: layer_part(l, "mlp_fc1"@), rows: 4 * e, cols: e })
            &&& layout[at + 5] == (Shape { name: layer_part(l, "mlp_fc2"@), rows: e, cols: 4 * e })
            &&& init_size(vocab_size) == vocab_size * e + BLOCK_SIZE * e + vocab_size * e + N_LAYER
                * (4 * (e * e) + 4 * e * e + e * (4 * e))
            &&& size_of(layout) == init_size(vocab_size)
        }),
{
    lemma_init_size(vocab_size);
    lemma_layers_at(N_LAYER as nat, l);
}

proof fn lemma_layers_at(n: nat, l: nat)
    requires
        l < n,
    ensures
        layers_layout(n).len() == 6 * n,
        forall|k: int|
            0 <= k < 6 ==> layers_layout(n)[6 * l + k] == #[trigger] layer_layout(l)[k],
    decreases n,
{
    let m = (n - 1) as nat;
    lemma_layers_count(m);
    if l < m {
        lemma_layers_at(m, l);
    }
}

proof fn lemma_layers_count(n: nat)
    ensures
        layers_layout(n).len() == 6 * n,
    decreases n,
{
    if n > 0 {
        lemma_layers_count((n - 1) as nat);
    }
}

/// A layout needs as many parameters as its matrices have entries, and lays each matrix
/// out after those before it.
pub proof fn law_layouts_grow(layout: Seq<Shape>, next: Shape)
    ensures
        size_of(Seq::empty()) == 0,
        laid_out(Seq::empty()).dom() == Set::<Seq<char>>::empty(),
        size_of(layout.push(next)) == size_of(layout) + next.rows * next.cols,
        laid_out(layout.push(next)).contains_key(next.name),
        laid_out(layout.push(next))[next.name].len() == next.rows,
        forall|r: int|
            0 <= r < next.rows ==> (#[trigger] laid_out(layout.push(next))[next.name][r]).len()
                == next.cols,
        forall|r: int, c: int|
            0 <= r < next.rows && 0 <= c < next.cols ==> #[trigger] laid_out(
                layout.push(next),
            )[next.name][r][c] == (size_of(layout) + r * next.cols + c) as usize,
        forall|name: Seq<char>|
            name != next.name ==> (#[trigger] laid_out(layout.push(next)).contains_key(name) <==> laid_out(
                layout,
            ).contains_key(name)) && (laid_out(layout).contains_key(name) ==> laid_out(
                layout.push(next),
            )[name] == laid_out(layout)[name]),
{
    assert(layout.push(next).drop_last() =~= layout);
    assert(laid_out(Seq::empty()).dom() =~= Set::<Seq<char>>::empty());
}

/// Counting the entries of a matrix adds up the lengths of its rows, and counting those of
/// all matrices adds up the counts.
pub proof fn law_counts_add_up(m: Seq<Seq<usize>>, row: Seq<usize>, ms: Seq<Seq<Seq<usize>>>)
    ensures
        entry_count(Seq::empty()) == 0,
        entry_count(m.push(row)) == entry_count(m) + row.len(),
        total_count(Seq::empty()) == 0,
        total_count(ms.push(m)) == total_count(ms) + entry_count(m),
{
    assert(m.push(row).drop_last() =~= m);
    assert(ms.push(m).drop_last() =~= ms);
}

/// The name of a part of a layer is made of the number of the layer, in decimal digits, and
/// of the name of the part; different layers and parts have different names.
pub proof fn law_names_of_layers(l: nat, part: Seq<char>, k: nat, other: Seq<char>) -> (digits: Seq<
    char,
>)
    ensures
        layer_part(l, part) == "layer"@ + digits + "."@ + part,
        number_of(digits) == l,
        forall|i: int| 0 <= i < digits.len() ==> '0' <= #[trigger] digits[i] <= '9',
        l > 0 ==> digits[0] != '0',
        l < 10 ==> digits.len() == 1,
        layer_part(l, part) == layer_part(k, other) ==> l == k && part == other,
{
    law_decimal_notation(l);
    law_decimal_notation(k);
    lemma_decimal_digits(l);
    lemma_decimal_digits(k);
    if layer_part(l, part) == layer_part(k, other) {
        reveal_strlit("layer");
        reveal_strlit(".");
        let s = layer_part(l, part).skip(5);
        let (a, b) = (decimal(l), decimal(k));
        assert(s =~= a + "."@ + part);
        assert(s =~= b + "."@ + other);
        assert forall|i: int| 0 <= i < a.len() implies (other_than('.'))(#[trigger] s[i]) by {
            assert(s[i] == a[i]);
        }
        assert(s[a.len() as int] == '.');
        lemma_leading_is(s, other_than('.'), a.len());
        assert forall|i: int| 0 <= i < b.len() implies (other_than('.'))(#[trigger] s[i]) by {
            assert(s[i] == b[i]);
        }
        assert(s[b.len() as int] == '.');
        lemma_leading_is(s, other_than('.'), b.len());
        assert(a =~= s.take(a.len() as int));
        assert(b =~= s.take(b.len() as int));
        lemma_decimal_injective(l, k);
        assert(part =~= s.skip(a.len() as int + 1));
        assert(other =~= s.skip(b.len() as int + 1));
    }
    decimal(l)
}

/// A dictionary knows just the names that were inserted, and under each the matrix that
/// stands at the same place.
pub proof fn law_dictionary(sd: StateDict, i: int, name: Seq<char>)
    requires
        sd.wf(),
    ensures
        0 <= i < sd.names@.len() ==> sd@.contains_key(sd.names@[i]@) && sd@[sd.names@[i]@] == rows(
            sd.mats@[i]@,
        ),
        sd@.contains_key(name) ==> exists|k: int|
            0 <= k < sd.names@.len() && (#[trigger] sd.names@[k])@ == name,
{
    if 0 <= i < sd.names@.len() {
        sd.lemma_entry(i);
    }
    if sd@.contains_key(name) {
        let k = choose|k: int| 0 <= k < views(sd.names@).len() && views(sd.names@)[k] == name;
        assert(sd.names@[k]@ == name);
    }
}

/// New parameters stand after what is there, each known by its own position, so that no
/// two are the same.
pub proof fn law_parameters_differ(values: Seq<Expr>, n: nat, i: int, j: int)
    requires
        values.len() + n <= usize::MAX,
        values.len() <= i < j < values.len() + n,
    ensures
        ({
            let all = with_parameters(values, n);
            &&& all.len() == values.len() + n
            &&& all.take(values.len() as int) == values
            &&& all[i] == (Expr { op: Op::Param(i as usize), args: Seq::empty() })
            &&& all[i] != all[j]
            &&& parameters(n) == with_parameters(Seq::empty(), n)
        }),
{
    let all = with_parameters(values, n);
    assert(all.take(values.len() as int) =~= values);
    assert(all[i].op == Op::Param(i as usize) && all[j].op == Op::Param(j as usize));
    assert(parameters(n) =~= with_parameters(Seq::empty(), n));
}

} // verus!
