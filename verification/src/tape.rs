//! The computation tape: every value of a run, in the order in which it is made.
//!
//! A value is known by its position on the tape. Its operation may only read
//! values that stand before it, so one pass from front to back evaluates the
//! whole tape. What a value *means* is an [`Expr`], the tree of operations that
//! leads to it; the view of a tape is the sequence of those trees.

use vstd::prelude::*;

verus! {

/// An operation of the tape.
///
/// Real numbers are held as the bits of an IEEE 754 double.
#[derive(Clone, Copy, PartialEq, Eq, Structural, Debug)]
pub enum Op {
    /// A trainable parameter; the number is the parameter's position on the tape.
    Param(usize),
    /// A constant, by the bits of its value.
    Const(u64),
    /// A whole number.
    Number(usize),
    /// The largest of the inputs (negative infinity for none); no gradient flows
    /// through it.
    Max,
    /// The input itself; no gradient flows through it.
    Detach,
    /// The first input divided by the second; no gradient flows through it.
    Quotient,
    /// The square root of the input; no gradient flows through it.
    Root,
    /// The cosine of the input; no gradient flows through it.
    Cosine,
    /// The input raised to a whole power; no gradient flows through it.
    IntPow(usize),
    /// The sum of two inputs.
    Add,
    /// The product of two inputs.
    Mul,
    /// The input with its sign changed.
    Neg,
    /// The exponential of the input.
    Exp,
    /// The natural logarithm of the input.
    Log,
    /// The input where it is positive, else zero.
    Relu,
    /// The input raised to the power whose bits are given.
    Pow(u64),
}

/// The bits of `0.0`.
pub const ZERO: u64 = 0;

/// The bits of `1.0`.
pub const ONE: u64 = 0x3FF0_0000_0000_0000;

/// The bits of `2.0`.
pub const TWO: u64 = 0x4000_0000_0000_0000;

/// The bits of `-1.0`.
pub const MINUS_ONE: u64 = 0xBFF0_0000_0000_0000;

/// The bits of `-2.0`.
pub const MINUS_TWO: u64 = 0xC000_0000_0000_0000;

/// The bits of `-0.5`.
pub const MINUS_HALF: u64 = 0xBFE0_0000_0000_0000;

impl Op {
    /// Whether the operation can be applied to `n` inputs.
    pub open spec fn takes(self, n: nat) -> bool {
        match self {
            Op::Param(_) => n == 0,
            Op::Const(_) => n == 0,
            Op::Number(_) => n == 0,
            Op::Max => true,
            Op::Detach => n == 1,
            Op::Quotient => n == 2,
            Op::Root => n == 1,
            Op::Cosine => n == 1,
            Op::IntPow(_) => n == 1,
            Op::Add => n == 2,
            Op::Mul => n == 2,
            Op::Neg => n == 1,
            Op::Exp => n == 1,
            Op::Log => n == 1,
            Op::Relu => n == 1,
            Op::Pow(_) => n == 1,
        }
    }

    /// Whether the operation reads its inputs without passing a gradient on to them.
    pub open spec fn detached(self) -> bool {
        match self {
            Op::Max | Op::Detach | Op::Quotient | Op::Root | Op::Cosine | Op::IntPow(_) => true,
            _ => false,
        }
    }
}

/// What a value of the tape stands for: an operation on what its inputs stand for.
pub struct Expr {
    pub op: Op,
    pub args: Seq<Expr>,
}

/// A leaf of an expression.
pub open spec fn leaf(op: Op) -> Expr {
    Expr { op, args: Seq::empty() }
}

pub open spec fn constant(bits: u64) -> Expr {
    leaf(Op::Const(bits))
}

pub open spec fn plus(a: Expr, b: Expr) -> Expr {
    Expr { op: Op::Add, args: seq![a, b] }
}

pub open spec fn times(a: Expr, b: Expr) -> Expr {
    Expr { op: Op::Mul, args: seq![a, b] }
}

pub open spec fn negated(a: Expr) -> Expr {
    Expr { op: Op::Neg, args: seq![a] }
}

pub open spec fn minus(a: Expr, b: Expr) -> Expr {
    plus(a, negated(b))
}

pub open spec fn exponential(a: Expr) -> Expr {
    Expr { op: Op::Exp, args: seq![a] }
}

pub open spec fn logarithm(a: Expr) -> Expr {
    Expr { op: Op::Log, args: seq![a] }
}

pub open spec fn rectified(a: Expr) -> Expr {
    Expr { op: Op::Relu, args: seq![a] }
}

pub open spec fn power(a: Expr, exponent: u64) -> Expr {
    Expr { op: Op::Pow(exponent), args: seq![a] }
}

pub open spec fn divided(a: Expr, b: Expr) -> Expr {
    times(a, power(b, MINUS_ONE))
}

pub open spec fn number(n: usize) -> Expr {
    leaf(Op::Number(n))
}

pub open spec fn largest(a: Seq<Expr>) -> Expr {
    Expr { op: Op::Max, args: a }
}

pub open spec fn detached(a: Expr) -> Expr {
    Expr { op: Op::Detach, args: seq![a] }
}

pub open spec fn quotient(a: Expr, b: Expr) -> Expr {
    Expr { op: Op::Quotient, args: seq![a, b] }
}

pub open spec fn root(a: Expr) -> Expr {
    Expr { op: Op::Root, args: seq![a] }
}

pub open spec fn cosine(a: Expr) -> Expr {
    Expr { op: Op::Cosine, args: seq![a] }
}

pub open spec fn int_power(a: Expr, n: usize) -> Expr {
    Expr { op: Op::IntPow(n), args: seq![a] }
}

/// A value on the tape: an operation and the positions of its inputs.
pub struct Node {
    pub op: Op,
    pub inputs: Vec<usize>,
}

/// The values of a run, each after the values that it is computed from.
pub struct Tape {
    pub nodes: Vec<Node>,
}

/// A matrix of values, row by row.
pub type Matrix = Vec<Vec<usize>>;

/// The entries of `s` at the positions `ids`.
pub open spec fn pick<T>(s: Seq<T>, ids: Seq<usize>) -> Seq<T> {
    Seq::new(ids.len(), |k: int| s[ids[k] as int])
}

/// The rows of a matrix as sequences.
pub open spec fn rows(m: Seq<Vec<usize>>) -> Seq<Seq<usize>> {
    Seq::new(m.len(), |r: int| m[r]@)
}

/// The entries of `s` at the positions in a matrix.
pub open spec fn pick_rows<T>(s: Seq<T>, m: Seq<Seq<usize>>) -> Seq<Seq<T>> {
    Seq::new(m.len(), |r: int| pick(s, m[r]))
}

/// Whether every position is below `n`.
pub open spec fn below(ids: Seq<usize>, n: nat) -> bool {
    forall|k: int| 0 <= k < ids.len() ==> (#[trigger] ids[k]) < n
}

/// Whether every position in a matrix is below `n`.
pub open spec fn rows_below(m: Seq<Seq<usize>>, n: nat) -> bool {
    forall|r: int| 0 <= r < m.len() ==> below(#[trigger] m[r], n)
}

/// Whether `a` is an initial part of `b`.
pub open spec fn prefix<T>(a: Seq<T>, b: Seq<T>) -> bool {
    &&& a.len() <= b.len()
    &&& forall|i: int|
        #![trigger a[i]]
        #![trigger b[i]]
        0 <= i < a.len() ==> a[i] == b[i]
}

/// What the values of a tape stand for.
pub open spec fn exprs(nodes: Seq<Node>) -> Seq<Expr>
    decreases nodes.len(),
{
    if nodes.len() == 0 {
        Seq::empty()
    } else {
        let before = exprs(nodes.drop_last());
        before.push(Expr { op: nodes.last().op, args: pick(before, nodes.last().inputs@) })
    }
}

/// Whether the node at position `i` is properly made.
pub open spec fn node_wf(node: Node, i: int) -> bool {
    &&& node.op.takes(node.inputs@.len())
    &&& below(node.inputs@, i as nat)
    &&& node.op matches Op::Param(p) ==> p == i
}

/// Whether every node is properly made.
pub open spec fn nodes_wf(nodes: Seq<Node>) -> bool {
    forall|i: int| 0 <= i < nodes.len() ==> node_wf(#[trigger] nodes[i], i)
}

impl View for Tape {
    type V = Seq<Expr>;

    open spec fn view(&self) -> Seq<Expr> {
        exprs(self.nodes@)
    }
}

impl Tape {
    /// Every node reads earlier nodes only, as many as its operation takes, and a
    /// parameter carries its own position, so no two values are the same parameter.
    pub open spec fn wf(self) -> bool {
        nodes_wf(self.nodes@)
    }

    /// `self` with more values at its end is `later`.
    pub open spec fn grows_to(self, later: Tape) -> bool {
        &&& prefix(self.nodes@, later.nodes@)
        &&& prefix(self@, later@)
        &&& self@.len() == self.nodes@.len()
        &&& later@.len() == later.nodes@.len()
    }

    /// `self` has grown to `later`, where the value at `id` stands for `e`.
    pub open spec fn gains(self, later: Tape, id: usize, e: Expr) -> bool {
        &&& later.wf()
        &&& self.grows_to(later)
        &&& id < later@.len()
        &&& later@[id as int] == e
    }

    /// `self` has grown to `later`, where the values at `ids` stand for `es`.
    pub open spec fn gains_all(self, later: Tape, ids: Seq<usize>, es: Seq<Expr>) -> bool {
        &&& later.wf()
        &&& self.grows_to(later)
        &&& below(ids, later@.len())
        &&& pick(later@, ids) == es
    }

    /// `self` has got one node more, which applies `op` to the values at `inputs`.
    pub open spec fn appends(self, later: Tape, op: Op, inputs: Seq<usize>) -> bool {
        &&& later.nodes@.len() == self.nodes@.len() + 1
        &&& later.node_is(self.nodes@.len() as int, op, inputs)
    }

    /// Whether the node at `i` applies `op` to the values at `inputs`.
    pub open spec fn node_is(self, i: int, op: Op, inputs: Seq<usize>) -> bool {
        self.nodes@[i].op == op && self.nodes@[i].inputs@ == inputs
    }

    /// The positions that the gradient of the value at `i` flows on to.
    pub open spec fn children(self, i: int) -> Seq<usize> {
        children(self.nodes@, i)
    }
}

/// The positions that the gradient of the node at `i` flows on to.
pub open spec fn children(nodes: Seq<Node>, i: int) -> Seq<usize> {
    if nodes[i].op.detached() {
        Seq::empty()
    } else {
        nodes[i].inputs@
    }
}

/// A tape stands for as many expressions as it has nodes.
pub broadcast proof fn lemma_exprs_len(nodes: Seq<Node>)
    ensures
        #[trigger] exprs(nodes).len() == nodes.len(),
    decreases nodes.len(),
{
    if nodes.len() > 0 {
        lemma_exprs_len(nodes.drop_last());
    }
}

/// The expressions of the first `n` nodes are the first `n` expressions.
pub proof fn lemma_exprs_take(nodes: Seq<Node>, n: int)
    requires
        0 <= n <= nodes.len(),
    ensures
        exprs(nodes.take(n)) == exprs(nodes).take(n),
    decreases nodes.len(),
{
    lemma_exprs_len(nodes);
    if n == nodes.len() {
        assert(nodes.take(n) =~= nodes);
        assert(exprs(nodes).take(n) =~= exprs(nodes));
    } else {
        lemma_exprs_take(nodes.drop_last(), n);
        lemma_exprs_len(nodes.drop_last());
        assert(nodes.drop_last().take(n) =~= nodes.take(n));
        assert(exprs(nodes).take(n) =~= exprs(nodes.drop_last()).take(n));
    }
}

/// What a value stands for is its operation on what its inputs stand for.
pub proof fn lemma_expr_at(nodes: Seq<Node>, i: int)
    requires
        0 <= i < nodes.len(),
        below(nodes[i].inputs@, i as nat),
    ensures
        exprs(nodes)[i].op == nodes[i].op,
        exprs(nodes)[i].args == pick(exprs(nodes), nodes[i].inputs@),
{
    lemma_exprs_len(nodes);
    lemma_exprs_take(nodes, i + 1);
    lemma_exprs_take(nodes, i);
    assert(nodes.take(i + 1).drop_last() =~= nodes.take(i));
    assert(exprs(nodes)[i] == exprs(nodes.take(i + 1))[i]);
    assert(pick(exprs(nodes.take(i)), nodes[i].inputs@) =~= pick(
        exprs(nodes),
        nodes[i].inputs@,
    ));
}

/// What an expression is worth, where `apply` says what operations compute.
pub open spec fn worth_of<T>(e: Expr, apply: spec_fn(Op, Seq<T>) -> T) -> T
    decreases e,
{
    apply(e.op, worths_of(e.args, apply))
}

/// What some expressions are worth.
pub open spec fn worths_of<T>(es: Seq<Expr>, apply: spec_fn(Op, Seq<T>) -> T) -> Seq<T>
    decreases es,
{
    Seq::new(
        es.len(),
        |k: int|
            if 0 <= k < es.len() {
                worth_of(es[k], apply)
            } else {
                arbitrary()
            },
    )
}

/// One pass from front to back evaluates a tape, whatever the operations compute:
/// values that are each computed from the values of the inputs are those that the
/// expressions are worth.
pub proof fn law_one_pass_evaluates<T>(
    tape: Tape,
    apply: spec_fn(Op, Seq<T>) -> T,
    values: Seq<T>,
    i: int,
)
    requires
        tape.wf(),
        values.len() == tape@.len(),
        forall|k: int|
            0 <= k < values.len() ==> #[trigger] values[k] == apply(
                tape.nodes@[k].op,
                pick(values, tape.nodes@[k].inputs@),
            ),
        0 <= i < values.len(),
    ensures
        values[i] == worth_of(tape@[i], apply),
    decreases i,
{
    let nodes = tape.nodes@;
    let inputs = nodes[i].inputs@;
    let e = tape@[i];
    lemma_exprs_len(nodes);
    assert(node_wf(nodes[i], i));
    lemma_expr_at(nodes, i);
    let args = worths_of(e.args, apply);
    assert forall|k: int| 0 <= k < inputs.len() implies pick(values, inputs)[k] == #[trigger] args[
        k
    ] by {
        assert(inputs[k] < i);
        law_one_pass_evaluates(tape, apply, values, inputs[k] as int);
    }
    assert(pick(values, inputs) =~= args);
}

/// A longer tape keeps what the values at earlier positions stand for.
pub proof fn lemma_pick_prefix<T>(a: Seq<T>, b: Seq<T>, ids: Seq<usize>)
    requires
        prefix(a, b),
        below(ids, a.len()),
    ensures
        pick(b, ids) == pick(a, ids),
        below(ids, b.len()),
{
    assert(pick(b, ids) =~= pick(a, ids));
}

/// A longer tape keeps what the entries of a matrix stand for.
pub proof fn lemma_pick_rows_prefix<T>(a: Seq<T>, b: Seq<T>, m: Seq<Seq<usize>>)
    requires
        prefix(a, b),
        rows_below(m, a.len()),
    ensures
        pick_rows(b, m) == pick_rows(a, m),
        rows_below(m, b.len()),
{
    assert forall|r: int| 0 <= r < m.len() implies pick(b, #[trigger] m[r]) == pick(a, m[r])
        && below(m[r], b.len()) by {
        lemma_pick_prefix(a, b, m[r]);
    }
    assert(pick_rows(b, m) =~= pick_rows(a, m));
}

impl Tape {
    /// An empty tape.
    pub fn empty() -> (tape: Tape)
        ensures
            tape.wf(),
            tape.nodes@.len() == 0,
            tape@ == Seq::<Expr>::empty(),
    {
        Tape { nodes: Vec::new() }
    }

    /// The number of values on the tape.
    pub fn len(&self) -> (n: usize)
        ensures
            n == self.nodes@.len(),
            n == self@.len(),
    {
        proof {
            lemma_exprs_len(self.nodes@);
        }
        self.nodes.len()
    }

    /// Appends the value of `op` on the values at `inputs`.
    pub fn op(&mut self, op: Op, inputs: Vec<usize>) -> (id: usize)
        requires
            old(self).wf(),
            op.takes(inputs@.len()),
            below(inputs@, old(self).nodes@.len()),
            op matches Op::Param(p) ==> p == old(self).nodes@.len(),
        ensures
            final(self).wf(),
            old(self).grows_to(*final(self)),
            id == old(self).nodes@.len(),
            final(self).nodes@ == old(self).nodes@.push((Node { op, inputs })),
            final(self)@ == old(self)@.push((Expr { op, args: pick(old(self)@, inputs@) })),
    {
        let id: usize = self.nodes.len();
        let ghost before = self.nodes@;
        self.nodes.push(Node { op, inputs });
        proof {
            assert(self.nodes@.drop_last() =~= before);
            lemma_exprs_len(before);
            lemma_exprs_len(self.nodes@);
        }
        id
    }
}

impl Tape {
    /// Appends a parameter.
    pub fn param(&mut self) -> (id: usize)
        requires
            old(self).wf(),
        ensures
            old(self).gains(*final(self), id, leaf(Op::Param(id))),
            id == old(self)@.len(),
            final(self)@.len() == old(self)@.len() + 1,
            old(self).appends(*final(self), Op::Param(id), Seq::empty()),
    {
        proof {
            lemma_exprs_len(self.nodes@);
        }
        let ghost start = self@;
        let slot: usize = self.nodes.len();
        let id = self.op(Op::Param(slot), Vec::new());
        assert(pick(start, Seq::empty()) =~= Seq::<Expr>::empty());
        id
    }

    /// Appends the constant whose bits are given.
    pub fn constant(&mut self, bits: u64) -> (id: usize)
        requires
            old(self).wf(),
        ensures
            old(self).gains(*final(self), id, constant(bits)),
            id == old(self)@.len(),
            final(self)@.len() == old(self)@.len() + 1,
            old(self).appends(*final(self), Op::Const(bits), Seq::empty()),
    {
        proof {
            lemma_exprs_len(self.nodes@);
        }
        let ghost start = self@;
        let id = self.op(Op::Const(bits), Vec::new());
        assert(pick(start, Seq::empty()) =~= Seq::<Expr>::empty());
        id
    }

    /// Appends a whole number.
    pub fn number(&mut self, n: usize) -> (id: usize)
        requires
            old(self).wf(),
        ensures
            old(self).gains(*final(self), id, number(n)),
            id == old(self)@.len(),
            final(self)@.len() == old(self)@.len() + 1,
            old(self).appends(*final(self), Op::Number(n), Seq::empty()),
    {
        proof {
            lemma_exprs_len(self.nodes@);
        }
        let ghost start = self@;
        let id = self.op(Op::Number(n), Vec::new());
        assert(pick(start, Seq::empty()) =~= Seq::<Expr>::empty());
        id
    }

    /// Appends the sum of two values.
    pub fn add(&mut self, a: usize, b: usize) -> (id: usize)
        requires
            old(self).wf(),
            a < old(self)@.len(),
            b < old(self)@.len(),
        ensures
            old(self).gains(*final(self), id, plus(old(self)@[a as int], old(self)@[b as int])),
            id == old(self).nodes@.len(),
            old(self).appends(*final(self), Op::Add, seq![a, b]),
    {
        proof {
            lemma_exprs_len(self.nodes@);
        }
        let ghost start = self@;
        let inputs = vec![a, b];
        assert(inputs@ =~= seq![a, b]);
        assert(pick(start, inputs@) =~= seq![start[a as int], start[b as int]]);
        self.op(Op::Add, inputs)
    }

    /// Appends the product of two values.
    pub fn mul(&mut self, a: usize, b: usize) -> (id: usize)
        requires
            old(self).wf(),
            a < old(self)@.len(),
            b < old(self)@.len(),
        ensures
            old(self).gains(*final(self), id, times(old(self)@[a as int], old(self)@[b as int])),
            id == old(self).nodes@.len(),
            old(self).appends(*final(self), Op::Mul, seq![a, b]),
    {
        proof {
            lemma_exprs_len(self.nodes@);
        }
        let ghost start = self@;
        let inputs = vec![a, b];
        assert(inputs@ =~= seq![a, b]);
        assert(pick(start, inputs@) =~= seq![start[a as int], start[b as int]]);
        self.op(Op::Mul, inputs)
    }

    /// Appends a value with its sign changed.
    pub fn neg(&mut self, a: usize) -> (id: usize)
        requires
            old(self).wf(),
            a < old(self)@.len(),
        ensures
            old(self).gains(*final(self), id, negated(old(self)@[a as int])),
            id == old(self).nodes@.len(),
            old(self).appends(*final(self), Op::Neg, seq![a]),
    {
        proof {
            lemma_exprs_len(self.nodes@);
        }
        let ghost start = self@;
        let inputs = vec![a];
        assert(inputs@ =~= seq![a]);
        assert(pick(start, inputs@) =~= seq![start[a as int]]);
        self.op(Op::Neg, inputs)
    }

    /// Appends the exponential of a value.
    pub fn exp(&mut self, a: usize) -> (id: usize)
        requires
            old(self).wf(),
            a < old(self)@.len(),
        ensures
            old(self).gains(*final(self), id, exponential(old(self)@[a as int])),
            id == old(self).nodes@.len(),
            old(self).appends(*final(self), Op::Exp, seq![a]),
    {
        proof {
            lemma_exprs_len(self.nodes@);
        }
        let ghost start = self@;
        let inputs = vec![a];
        assert(inputs@ =~= seq![a]);
        assert(pick(start, inputs@) =~= seq![start[a as int]]);
        self.op(Op::Exp, inputs)
    }

    /// Appends the natural logarithm of a value.
    pub fn log(&mut self, a: usize) -> (id: usize)
        requires
            old(self).wf(),
            a < old(self)@.len(),
        ensures
            old(self).gains(*final(self), id, logarithm(old(self)@[a as int])),
            id == old(self).nodes@.len(),
            old(self).appends(*final(self), Op::Log, seq![a]),
    {
        proof {
            lemma_exprs_len(self.nodes@);
        }
        let ghost start = self@;
        let inputs = vec![a];
        assert(inputs@ =~= seq![a]);
        assert(pick(start, inputs@) =~= seq![start[a as int]]);
        self.op(Op::Log, inputs)
    }

    /// Appends a value, or zero where it is not positive.
    pub fn relu(&mut self, a: usize) -> (id: usize)
        requires
            old(self).wf(),
            a < old(self)@.len(),
        ensures
            old(self).gains(*final(self), id, rectified(old(self)@[a as int])),
            id == old(self).nodes@.len(),
            old(self).appends(*final(self), Op::Relu, seq![a]),
    {
        proof {
            lemma_exprs_len(self.nodes@);
        }
        let ghost start = self@;
        let inputs = vec![a];
        assert(inputs@ =~= seq![a]);
        assert(pick(start, inputs@) =~= seq![start[a as int]]);
        self.op(Op::Relu, inputs)
    }

    /// Appends a value raised to the power whose bits are given.
    pub fn pow(&mut self, a: usize, exponent: u64) -> (id: usize)
        requires
            old(self).wf(),
            a < old(self)@.len(),
        ensures
            old(self).gains(*final(self), id, power(old(self)@[a as int], exponent)),
            id == old(self).nodes@.len(),
            old(self).appends(*final(self), Op::Pow(exponent), seq![a]),
    {
        proof {
            lemma_exprs_len(self.nodes@);
        }
        let ghost start = self@;
        let inputs = vec![a];
        assert(inputs@ =~= seq![a]);
        assert(pick(start, inputs@) =~= seq![start[a as int]]);
        self.op(Op::Pow(exponent), inputs)
    }

    /// Appends the difference of two values, as the sum with the second negated.
    pub fn sub(&mut self, a: usize, b: usize) -> (id: usize)
        requires
            old(self).wf(),
            a < old(self)@.len(),
            b < old(self)@.len(),
        ensures
            old(self).gains(*final(self), id, minus(old(self)@[a as int], old(self)@[b as int])),
            id == old(self).nodes@.len() + 1,
            final(self).nodes@.len() == old(self).nodes@.len() + 2,
            final(self).node_is(old(self).nodes@.len() as int, Op::Neg, seq![b]),
            final(self).node_is(id as int, Op::Add, seq![a, (id - 1) as usize]),
    {
        let opposite = self.neg(b);
        self.add(a, opposite)
    }

    /// Appends the quotient of two values, as the product with the second to the power -1.
    pub fn div(&mut self, a: usize, b: usize) -> (id: usize)
        requires
            old(self).wf(),
            a < old(self)@.len(),
            b < old(self)@.len(),
        ensures
            old(self).gains(*final(self), id, divided(old(self)@[a as int], old(self)@[b as int])),
            id == old(self).nodes@.len() + 1,
            final(self).nodes@.len() == old(self).nodes@.len() + 2,
            final(self).node_is(old(self).nodes@.len() as int, Op::Pow(MINUS_ONE), seq![b]),
            final(self).node_is(id as int, Op::Mul, seq![a, (id - 1) as usize]),
    {
        let reciprocal = self.pow(b, MINUS_ONE);
        self.mul(a, reciprocal)
    }

    /// Appends the largest of some values, cut off from their gradients.
    pub fn max_of(&mut self, ids: &Vec<usize>) -> (id: usize)
        requires
            old(self).wf(),
            below(ids@, old(self)@.len()),
        ensures
            old(self).gains(
                *final(self),
                id,
                largest(pick(old(self)@, ids@)),
            ),
            id == old(self).nodes@.len(),
            old(self).appends(*final(self), Op::Max, ids@),
    {
        proof {
            lemma_exprs_len(self.nodes@);
        }
        let inputs = ids.clone();
        assert(inputs@ =~= ids@);
        self.op(Op::Max, inputs)
    }

    /// Appends a value, cut off from its gradient.
    pub fn detach(&mut self, a: usize) -> (id: usize)
        requires
            old(self).wf(),
            a < old(self)@.len(),
        ensures
            old(self).gains(*final(self), id, detached(old(self)@[a as int])),
            id == old(self).nodes@.len(),
            old(self).appends(*final(self), Op::Detach, seq![a]),
    {
        proof {
            lemma_exprs_len(self.nodes@);
        }
        let ghost start = self@;
        let inputs = vec![a];
        assert(inputs@ =~= seq![a]);
        assert(pick(start, inputs@) =~= seq![start[a as int]]);
        self.op(Op::Detach, inputs)
    }

    /// Appends the square root of a value.
    pub fn root(&mut self, a: usize) -> (id: usize)
        requires
            old(self).wf(),
            a < old(self)@.len(),
        ensures
            old(self).gains(*final(self), id, root(old(self)@[a as int])),
            id == old(self).nodes@.len(),
            old(self).appends(*final(self), Op::Root, seq![a]),
    {
        proof {
            lemma_exprs_len(self.nodes@);
        }
        let ghost start = self@;
        let inputs = vec![a];
        assert(inputs@ =~= seq![a]);
        assert(pick(start, inputs@) =~= seq![start[a as int]]);
        self.op(Op::Root, inputs)
    }

    /// Appends the cosine of a value.
    pub fn cosine(&mut self, a: usize) -> (id: usize)
        requires
            old(self).wf(),
            a < old(self)@.len(),
        ensures
            old(self).gains(*final(self), id, cosine(old(self)@[a as int])),
            id == old(self).nodes@.len(),
            old(self).appends(*final(self), Op::Cosine, seq![a]),
    {
        proof {
            lemma_exprs_len(self.nodes@);
        }
        let ghost start = self@;
        let inputs = vec![a];
        assert(inputs@ =~= seq![a]);
        assert(pick(start, inputs@) =~= seq![start[a as int]]);
        self.op(Op::Cosine, inputs)
    }

    /// Appends a value raised to a whole power.
    pub fn int_pow(&mut self, a: usize, n: usize) -> (id: usize)
        requires
            old(self).wf(),
            a < old(self)@.len(),
        ensures
            old(self).gains(*final(self), id, int_power(old(self)@[a as int], n)),
            id == old(self).nodes@.len(),
            old(self).appends(*final(self), Op::IntPow(n), seq![a]),
    {
        proof {
            lemma_exprs_len(self.nodes@);
        }
        let ghost start = self@;
        let inputs = vec![a];
        assert(inputs@ =~= seq![a]);
        assert(pick(start, inputs@) =~= seq![start[a as int]]);
        self.op(Op::IntPow(n), inputs)
    }

    /// Appends the quotient of two values.
    pub fn quotient(&mut self, a: usize, b: usize) -> (id: usize)
        requires
            old(self).wf(),
            a < old(self)@.len(),
            b < old(self)@.len(),
        ensures
            old(self).gains(*final(self), id, quotient(old(self)@[a as int], old(self)@[b as int])),
            id == old(self).nodes@.len(),
            old(self).appends(*final(self), Op::Quotient, seq![a, b]),
    {
        proof {
            lemma_exprs_len(self.nodes@);
        }
        let ghost start = self@;
        let inputs = vec![a, b];
        assert(inputs@ =~= seq![a, b]);
        assert(pick(start, inputs@) =~= seq![start[a as int], start[b as int]]);
        self.op(Op::Quotient, inputs)
    }

    /// Drops every value from position `n` on.
    pub fn truncate(&mut self, n: usize)
        requires
            old(self).wf(),
            n <= old(self)@.len(),
        ensures
            final(self).wf(),
            final(self).nodes@ == old(self).nodes@.take(n as int),
            final(self)@ == old(self)@.take(n as int),
    {
        proof {
            lemma_exprs_len(self.nodes@);
            lemma_exprs_take(self.nodes@, n as int);
        }
        self.nodes.truncate(n);
    }

    /// The operation of the value at `id`.
    pub fn op_at(&self, id: usize) -> (op: Op)
        requires
            id < self.nodes@.len(),
        ensures
            op == self.nodes@[id as int].op,
    {
        self.nodes[id].op
    }

    /// The positions of the inputs of the value at `id`.
    pub fn inputs_at(&self, id: usize) -> (inputs: &Vec<usize>)
        requires
            id < self.nodes@.len(),
        ensures
            *inputs == self.nodes@[id as int].inputs,
    {
        &self.nodes[id].inputs
    }
}

} // verus!
