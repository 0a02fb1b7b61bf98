//! Reverse-mode differentiation of a tape.
//!
//! The gradient of one value with respect to every value that it depends on is
//! gathered in one sweep: the values are put in an order in which each stands
//! after its children, and the sweep walks that order backwards, handing on the
//! gradient of each value to its children.

use vstd::prelude::*;

use crate::tape::{below, children, node_wf, nodes_wf, prefix, Node, Op, Tape};

verus! {

/// The order that visiting `id` leads to, where the values in `done` come first.
///
/// A value that is not yet done follows its children, of which the last is
/// visited first.
pub open spec fn visit(nodes: Seq<Node>, id: usize, done: Seq<usize>) -> Seq<usize>
    decreases id, children(nodes, id as int).len() + 1,
{
    if done.contains(id) {
        done
    } else {
        visit_children(nodes, id, children(nodes, id as int).len(), done).push(id)
    }
}

/// The order that visiting the first `k` children of `id`, from the last to the
/// first, leads to.
pub open spec fn visit_children(
    nodes: Seq<Node>,
    id: usize,
    k: nat,
    done: Seq<usize>,
) -> Seq<usize>
    decreases id, k,
{
    if k == 0 {
        done
    } else {
        let child = children(nodes, id as int)[k - 1];
        if child < id {
            visit_children(nodes, id, (k - 1) as nat, visit(nodes, child, done))
        } else {
            done
        }
    }
}

/// The order in which the values that `root` depends on are listed: each once,
/// after its children, and `root` last.
pub open spec fn post_order(nodes: Seq<Node>, root: usize) -> Seq<usize> {
    visit(nodes, root, Seq::empty())
}

/// Whether a gradient flows from `a` to `b`.
pub open spec fn reaches(nodes: Seq<Node>, a: usize, b: usize) -> bool
    decreases a,
{
    ||| a == b
    ||| exists|k: int|
        0 <= k < children(nodes, a as int).len() && (#[trigger] children(nodes, a as int)[k]) < a
            && reaches(nodes, children(nodes, a as int)[k], b)
}

/// Whether every value in `order` stands there once, after its children.
pub open spec fn topological(nodes: Seq<Node>, order: Seq<usize>) -> bool {
    &&& order.no_duplicates()
    &&& below(order, nodes.len())
    &&& forall|i: int, k: int|
        0 <= i < order.len() && 0 <= k < children(nodes, order[i] as int).len()
            ==> order.take(i).contains(#[trigger] children(nodes, order[i] as int)[k])
}

proof fn lemma_child_below(nodes: Seq<Node>, id: usize, k: int)
    requires
        nodes_wf(nodes),
        id < nodes.len(),
        0 <= k < children(nodes, id as int).len(),
    ensures
        children(nodes, id as int)[k] < id,
{
    assert(node_wf(nodes[id as int], id as int));
}

/// A visit only appends, and only values up to the one visited.
proof fn lemma_visit_grows(nodes: Seq<Node>, id: usize, done: Seq<usize>)
    ensures
        prefix(done, visit(nodes, id, done)),
        forall|x: usize|
            #[trigger] visit(nodes, id, done).contains(x) ==> done.contains(x) || x <= id,
        visit(nodes, id, done).contains(id),
    decreases id, children(nodes, id as int).len() + 1,
{
    if !done.contains(id) {
        let n = children(nodes, id as int).len();
        lemma_visit_children_grows(nodes, id, n, done);
        let inner = visit_children(nodes, id, n, done);
        let out = visit(nodes, id, done);
        assert(out == inner.push(id));
        assert(out[out.len() - 1] == id);
        assert forall|x: usize| #[trigger] out.contains(x) implies done.contains(x) || x <= id by {
            let i = choose|i: int| 0 <= i < out.len() && out[i] == x;
            if i < inner.len() {
                assert(inner.contains(x));
            }
        }
    }
}

proof fn lemma_visit_children_grows(nodes: Seq<Node>, id: usize, k: nat, done: Seq<usize>)
    ensures
        prefix(done, visit_children(nodes, id, k, done)),
        forall|x: usize|
            #[trigger] visit_children(nodes, id, k, done).contains(x) ==> done.contains(x) || x
                < id,
    decreases id, k,
{
    if k > 0 {
        let child = children(nodes, id as int)[k - 1];
        if child < id {
            let mid = visit(nodes, child, done);
            lemma_visit_grows(nodes, child, done);
            lemma_visit_children_grows(nodes, id, (k - 1) as nat, mid);
        }
    }
}

/// What is done stays done.
proof fn lemma_prefix_contains(a: Seq<usize>, b: Seq<usize>)
    requires
        prefix(a, b),
    ensures
        forall|x: usize| a.contains(x) ==> #[trigger] b.contains(x),
{
    assert forall|x: usize| a.contains(x) implies #[trigger] b.contains(x) by {
        let i = choose|i: int| 0 <= i < a.len() && a[i] == x;
        assert(b[i] == x);
    }
}

/// What is left to do when `stack` waits and `done` is done: an entry marked
/// true has its children visited and is listed next, any other is visited.
spec fn resume(nodes: Seq<Node>, stack: Seq<(usize, bool)>, done: Seq<usize>) -> Seq<usize>
    decreases stack.len(),
{
    if stack.len() == 0 {
        done
    } else {
        let (id, expanded) = stack.last();
        if expanded {
            resume(
                nodes,
                stack.drop_last(),
                if done.contains(id) {
                    done
                } else {
                    done.push(id)
                },
            )
        } else {
            resume(nodes, stack.drop_last(), visit(nodes, id, done))
        }
    }
}

/// A bound on the steps that visiting `id` takes.
spec fn effort(nodes: Seq<Node>, id: usize) -> nat
    decreases id, children(nodes, id as int).len() + 1,
{
    2 + effort_of_children(nodes, id, children(nodes, id as int).len())
}

spec fn effort_of_children(nodes: Seq<Node>, id: usize, k: nat) -> nat
    decreases id, k,
{
    if k == 0 {
        0
    } else {
        let child = children(nodes, id as int)[k - 1];
        if child < id {
            effort_of_children(nodes, id, (k - 1) as nat) + effort(nodes, child)
        } else {
            0
        }
    }
}

/// A bound on the steps that clearing a stack takes.
spec fn stack_effort(nodes: Seq<Node>, stack: Seq<(usize, bool)>) -> nat
    decreases stack.len(),
{
    if stack.len() == 0 {
        0
    } else {
        stack_effort(nodes, stack.drop_last()) + if stack.last().1 {
            1
        } else {
            effort(nodes, stack.last().0)
        }
    }
}

/// One more entry on the stack is dealt with first.
proof fn lemma_stack_push(
    nodes: Seq<Node>,
    stack: Seq<(usize, bool)>,
    entry: (usize, bool),
    done: Seq<usize>,
)
    ensures
        entry.1 ==> resume(nodes, stack.push(entry), done) == resume(
            nodes,
            stack,
            if done.contains(entry.0) {
                done
            } else {
                done.push(entry.0)
            },
        ),
        !entry.1 ==> resume(nodes, stack.push(entry), done) == resume(
            nodes,
            stack,
            visit(nodes, entry.0, done),
        ),
        stack_effort(nodes, stack.push(entry)) == stack_effort(nodes, stack) + if entry.1 {
            1
        } else {
            effort(nodes, entry.0)
        },
{
    assert(stack.push(entry).drop_last() =~= stack);
}

impl Op {
    /// Whether the operation cuts its inputs off from the gradient.
    pub fn is_detached(&self) -> (b: bool)
        ensures
            b == self.detached(),
    {
        match self {
            Op::Max | Op::Detach | Op::Quotient | Op::Root | Op::Cosine | Op::IntPow(_) => true,
            _ => false,
        }
    }
}

impl Tape {
    /// Lists the values that `root` depends on, each after its children.
    pub fn topological_order(&self, root: usize) -> (order: Vec<usize>)
        requires
            self.wf(),
            root < self.nodes@.len(),
        ensures
            order@ == post_order(self.nodes@, root),
    {
        let n: usize = self.nodes.len();
        let ghost nodes = self.nodes@;
        let mut order: Vec<usize> = Vec::new();
        let mut seen: Vec<bool> = vec![false; n];
        let mut stack: Vec<(usize, bool)> = Vec::new();
        stack.push((root, false));
        proof {
            let none = Seq::<(usize, bool)>::empty();
            lemma_stack_push(nodes, none, (root, false), Seq::empty());
            assert(stack@ =~= none.push((root, false)));
        }
        while stack.len() > 0
            invariant
                self.wf(),
                nodes == self.nodes@,
                n == nodes.len(),
                root < n,
                seen@.len() == n,
                forall|x: usize| x < n ==> (#[trigger] seen@[x as int] == order@.contains(x)),
                forall|i: int| 0 <= i < stack@.len() ==> (#[trigger] stack@[i]).0 < n,
                resume(nodes, stack@, order@) == post_order(nodes, root),
            decreases stack_effort(nodes, stack@),
        {
            let ghost waiting = stack@;
            let ghost rest = stack@.drop_last();
            let (id, expanded) = stack.pop().unwrap();
            assert(stack@ =~= rest);
            assert(waiting =~= rest.push((id, expanded)));
            assert(waiting[waiting.len() - 1].0 < n);
            proof {
                lemma_stack_push(nodes, rest, (id, expanded), order@);
            }
            if seen[id] {
                continue ;
            }
            if expanded {
                seen.set(id, true);
                let ghost done = order@;
                order.push(id);
                assert forall|x: usize| x < n implies (#[trigger] seen@[x as int]
                    == order@.contains(x)) by {
                    if x == id {
                        assert(order@[done.len() as int] == id);
                    } else if done.contains(x) {
                        let i = choose|i: int| 0 <= i < done.len() && done[i] == x;
                        assert(order@[i] == x);
                    }
                }
                continue ;
            }
            stack.push((id, true));
            let ghost base = stack@;
            let ghost done = order@;
            proof {
                lemma_stack_push(nodes, rest, (id, true), done);
                assert(base =~= rest.push((id, true)));
            }
            if !self.nodes[id].op.is_detached() {
                let count: usize = self.nodes[id].inputs.len();
                let mut k: usize = 0;
                while k < count
                    invariant
                        self.wf(),
                        nodes == self.nodes@,
                        n == nodes.len(),
                        id < n,
                        count == children(nodes, id as int).len(),
                        children(nodes, id as int) == nodes[id as int].inputs@,
                        k <= count,
                        done == order@,
                        seen@.len() == n,
                        forall|x: usize| x < n ==> (#[trigger] seen@[x as int] == done.contains(x)),
                        forall|i: int| 0 <= i < stack@.len() ==> (#[trigger] stack@[i]).0 < n,
                        forall|d: Seq<usize>|
                            (forall|x: usize| done.contains(x) ==> #[trigger] d.contains(x))
                                ==> #[trigger] resume(nodes, stack@, d) == resume(
                                nodes,
                                base,
                                visit_children(nodes, id, k as nat, d),
                            ),
                        stack_effort(nodes, stack@) <= stack_effort(nodes, base)
                            + effort_of_children(nodes, id, k as nat),
                    decreases count - k,
                {
                    let child = self.nodes[id].inputs[k];
                    let ghost before = stack@;
                    proof {
                        lemma_child_below(nodes, id, k as int);
                    }
                    if !seen[child] {
                        stack.push((child, false));
                        proof {
                            assert(stack@ =~= before.push((child, false)));
                            lemma_stack_push(nodes, before, (child, false), done);
                        }
                    }
                    assert forall|d: Seq<usize>|
                        (forall|x: usize| done.contains(x) ==> #[trigger] d.contains(x)) implies
                        #[trigger] resume(nodes, stack@, d) == resume(
                        nodes,
                        base,
                        visit_children(nodes, id, (k + 1) as nat, d),
                    ) by {
                        let next = visit(nodes, child, d);
                        lemma_visit_grows(nodes, child, d);
                        lemma_prefix_contains(d, next);
                        assert(resume(nodes, before, next) == resume(
                            nodes,
                            base,
                            visit_children(nodes, id, k as nat, next),
                        ));
                        if !done.contains(child) {
                            lemma_stack_push(nodes, before, (child, false), d);
                        }
                    }
                    k += 1;
                }
            }
            proof {
                let count = children(nodes, id as int).len();
                let inner = visit_children(nodes, id, count, done);
                lemma_visit_children_grows(nodes, id, count, done);
                assert(!inner.contains(id));
                assert(resume(nodes, stack@, done) == resume(nodes, base, inner));
                lemma_stack_push(nodes, rest, (id, true), inner);
            }
        }
        order
    }
}

proof fn lemma_visit_topological(nodes: Seq<Node>, id: usize, done: Seq<usize>)
    requires
        nodes_wf(nodes),
        id < nodes.len(),
        topological(nodes, done),
    ensures
        topological(nodes, visit(nodes, id, done)),
        forall|x: usize|
            #[trigger] visit(nodes, id, done).contains(x) ==> done.contains(x) || reaches(
                nodes,
                id,
                x,
            ),
    decreases id, children(nodes, id as int).len() + 1,
{
    if !done.contains(id) {
        let n = children(nodes, id as int).len();
        let inner = visit_children(nodes, id, n, done);
        let out = visit(nodes, id, done);
        lemma_visit_children_topological(nodes, id, n, done);
        lemma_visit_children_grows(nodes, id, n, done);
        assert(!inner.contains(id));
        assert(out == inner.push(id));
        assert forall|i: int, k: int|
            0 <= i < out.len() && 0 <= k < children(nodes, out[i] as int).len() implies out.take(
            i,
        ).contains(#[trigger] children(nodes, out[i] as int)[k]) by {
            assert(out.take(i) =~= inner.take(i));
            if i == inner.len() {
                assert(inner.take(i) =~= inner);
            } else {
                assert(inner.take(i).contains(children(nodes, inner[i] as int)[k]));
            }
        }
        assert forall|x: usize| #[trigger] out.contains(x) implies done.contains(x) || reaches(
            nodes,
            id,
            x,
        ) by {
            let i = choose|i: int| 0 <= i < out.len() && out[i] == x;
            if i < inner.len() {
                assert(inner.contains(x));
            }
        }
    }
}

proof fn lemma_visit_children_topological(nodes: Seq<Node>, id: usize, k: nat, done: Seq<usize>)
    requires
        nodes_wf(nodes),
        id < nodes.len(),
        k <= children(nodes, id as int).len(),
        topological(nodes, done),
    ensures
        topological(nodes, visit_children(nodes, id, k, done)),
        forall|x: usize|
            #[trigger] visit_children(nodes, id, k, done).contains(x) ==> done.contains(x)
                || reaches(nodes, id, x),
        forall|j: int|
            0 <= j < k ==> visit_children(nodes, id, k, done).contains(
                #[trigger] children(nodes, id as int)[j],
            ),
    decreases id, k,
{
    if k > 0 {
        let child = children(nodes, id as int)[k - 1];
        lemma_child_below(nodes, id, k - 1);
        let mid = visit(nodes, child, done);
        let out = visit_children(nodes, id, k, done);
        lemma_visit_topological(nodes, child, done);
        lemma_visit_grows(nodes, child, done);
        lemma_visit_children_topological(nodes, id, (k - 1) as nat, mid);
        lemma_visit_children_grows(nodes, id, (k - 1) as nat, mid);
        lemma_prefix_contains(mid, out);
        assert forall|x: usize| #[trigger] out.contains(x) implies done.contains(x) || reaches(
            nodes,
            id,
            x,
        ) by {
            if mid.contains(x) && !done.contains(x) {
                assert(reaches(nodes, child, x));
                assert(children(nodes, id as int)[k - 1] == child);
            }
        }
    }
}

/// What a listed value reaches is listed too.
proof fn lemma_closed(nodes: Seq<Node>, order: Seq<usize>, a: usize, b: usize)
    requires
        topological(nodes, order),
        order.contains(a),
        reaches(nodes, a, b),
    ensures
        order.contains(b),
    decreases a,
{
    if a != b {
        let k = choose|k: int|
            0 <= k < children(nodes, a as int).len() && (#[trigger] children(nodes, a as int)[k])
                < a && reaches(nodes, children(nodes, a as int)[k], b);
        let i = choose|i: int| 0 <= i < order.len() && order[i] == a;
        let child = children(nodes, order[i] as int)[k];
        assert(order.take(i).contains(child));
        let j = choose|j: int| 0 <= j < order.take(i).len() && order.take(i)[j] == child;
        assert(order[j] == child);
        lemma_closed(nodes, order, child, b);
    }
}

/// The order holds exactly the values that the root's gradient flows to, each
/// once and after its children, with the root at the end.
pub proof fn law_post_order(nodes: Seq<Node>, root: usize)
    requires
        nodes_wf(nodes),
        root < nodes.len(),
    ensures
        topological(nodes, post_order(nodes, root)),
        forall|x: usize| #[trigger]
            post_order(nodes, root).contains(x) <==> reaches(nodes, root, x),
        post_order(nodes, root).len() > 0,
        post_order(nodes, root).last() == root,
{
    let none = Seq::<usize>::empty();
    let order = post_order(nodes, root);
    lemma_visit_topological(nodes, root, none);
    lemma_visit_grows(nodes, root, none);
    assert forall|x: usize| #[trigger] order.contains(x) <==> reaches(nodes, root, x) by {
        if reaches(nodes, root, x) {
            lemma_closed(nodes, order, root, x);
        }
    }
    assert(!none.contains(root));
}

/// The derivative of an operation with respect to one of its inputs, as a
/// number to be read off the values of the tape.
#[derive(Clone, Copy, PartialEq, Eq, Structural, Debug)]
pub enum LocalGrad {
    /// `1`.
    One,
    /// `-1`.
    MinusOne,
    /// The value at a position.
    Value(usize),
    /// One divided by the value at a position.
    Reciprocal(usize),
    /// `1` where the value at a position is positive, else `0`.
    Step(usize),
    /// `n * x ^ (n - 1)`, for the value `x` at a position and the `n` whose bits are given.
    Power(usize, u64),
}

/// One step of the sweep: the gradient of `child` grows by the gradient of
/// `parent` times `local`.
#[derive(Clone, Copy, PartialEq, Eq, Structural, Debug)]
pub struct GradStep {
    pub parent: usize,
    pub child: usize,
    pub local: LocalGrad,
}

/// The derivative of the value at `id` with respect to its input number `k`.
pub open spec fn local_grad(nodes: Seq<Node>, id: usize, k: int) -> LocalGrad {
    let inputs = nodes[id as int].inputs@;
    match nodes[id as int].op {
        Op::Mul => LocalGrad::Value(
            if k == 0 {
                inputs[1]
            } else {
                inputs[0]
            },
        ),
        Op::Neg => LocalGrad::MinusOne,
        Op::Exp => LocalGrad::Value(id),
        Op::Log => LocalGrad::Reciprocal(inputs[0]),
        Op::Relu => LocalGrad::Step(inputs[0]),
        Op::Pow(exponent) => LocalGrad::Power(inputs[0], exponent),
        _ => LocalGrad::One,
    }
}

/// The steps that hand on the gradient of the value at `id`.
pub open spec fn steps_of(nodes: Seq<Node>, id: usize) -> Seq<GradStep> {
    Seq::new(
        children(nodes, id as int).len(),
        |k: int|
            GradStep {
                parent: id,
                child: children(nodes, id as int)[k],
                local: local_grad(nodes, id, k),
            },
    )
}

/// The steps that hand on the gradients of the values in `order`, from the last
/// to the first.
pub open spec fn sweep(nodes: Seq<Node>, order: Seq<usize>) -> Seq<GradStep>
    decreases order.len(),
{
    if order.len() == 0 {
        Seq::empty()
    } else {
        steps_of(nodes, order.last()) + sweep(nodes, order.drop_last())
    }
}

impl Tape {
    /// The derivative of the value at `id` with respect to its input number `k`.
    fn local_grad(&self, id: usize, k: usize) -> (local: LocalGrad)
        requires
            self.wf(),
            id < self.nodes@.len(),
            k < self.nodes@[id as int].inputs@.len(),
        ensures
            local == local_grad(self.nodes@, id, k as int),
    {
        let node = &self.nodes[id];
        assert(node_wf(self.nodes@[id as int], id as int));
        match node.op {
            Op::Mul => if k == 0 {
                LocalGrad::Value(node.inputs[1])
            } else {
                LocalGrad::Value(node.inputs[0])
            },
            Op::Neg => LocalGrad::MinusOne,
            Op::Exp => LocalGrad::Value(id),
            Op::Log => LocalGrad::Reciprocal(node.inputs[0]),
            Op::Relu => LocalGrad::Step(node.inputs[0]),
            Op::Pow(exponent) => LocalGrad::Power(node.inputs[0], exponent),
            _ => LocalGrad::One,
        }
    }

    /// The steps that turn a gradient of one at `root`, and of zero elsewhere,
    /// into the gradient of `root` with respect to every value.
    ///
    /// The steps are to be taken in order.
    pub fn backward(&self, root: usize) -> (steps: Vec<GradStep>)
        requires
            self.wf(),
            root < self.nodes@.len(),
        ensures
            steps@ == sweep(self.nodes@, post_order(self.nodes@, root)),
    {
        let ghost nodes = self.nodes@;
        let order = self.topological_order(root);
        proof {
            law_post_order(nodes, root);
        }
        let mut steps: Vec<GradStep> = Vec::new();
        let mut i: usize = order.len();
        assert(order@.take(i as int) =~= order@);
        assert(steps@ + sweep(nodes, order@) =~= sweep(nodes, order@));
        while i > 0
            invariant
                self.wf(),
                nodes == self.nodes@,
                i <= order@.len(),
                below(order@, nodes.len()),
                steps@ + sweep(nodes, order@.take(i as int)) == sweep(nodes, order@),
            decreases i,
        {
            let ghost earlier = order@.take(i as int);
            i -= 1;
            let id = order[i];
            let ghost start = steps@;
            assert(earlier.drop_last() =~= order@.take(i as int));
            assert(earlier.last() == id);
            if !self.nodes[id].op.is_detached() {
                let count: usize = self.nodes[id].inputs.len();
                let mut k: usize = 0;
                while k < count
                    invariant
                        self.wf(),
                        nodes == self.nodes@,
                        id < nodes.len(),
                        children(nodes, id as int) == nodes[id as int].inputs@,
                        count == nodes[id as int].inputs@.len(),
                        k <= count,
                        steps@ == start + steps_of(nodes, id).take(k as int),
                    decreases count - k,
                {
                    let child = self.nodes[id].inputs[k];
                    let local = self.local_grad(id, k);
                    steps.push(GradStep { parent: id, child, local });
                    k += 1;
                    assert(steps@ =~= start + steps_of(nodes, id).take(k as int));
                }
            }
            assert(steps@ =~= start + steps_of(nodes, id));
            assert(steps@ + sweep(nodes, order@.take(i as int)) =~= start + sweep(nodes, earlier));
        }
        assert(steps@ + sweep(nodes, order@.take(0)) =~= steps@);
        steps
    }
}

/// The values of `d`, and then those of `e` that are not among them.
pub open spec fn followed_by(d: Seq<usize>, e: Seq<usize>) -> Seq<usize> {
    d + e.filter(|x: usize| !d.contains(x))
}

/// Whether the children of all values in `d` are in `d` too.
spec fn complete(nodes: Seq<Node>, d: Seq<usize>) -> bool {
    forall|x: usize, k: int|
        d.contains(x) && 0 <= k < children(nodes, x as int).len() ==> d.contains(
            #[trigger] children(nodes, x as int)[k],
        )
}

proof fn lemma_followed_by_more(d: Seq<usize>, e: Seq<usize>, x: usize)
    ensures
        followed_by(d, e.push(x)) == if d.contains(x) {
            followed_by(d, e)
        } else {
            followed_by(d, e).push(x)
        },
{
    reveal(Seq::filter);
    assert(e.push(x).drop_last() =~= e);
    if !d.contains(x) {
        assert(followed_by(d, e.push(x)) =~= followed_by(d, e).push(x));
    }
}

proof fn lemma_followed_by_contains(d: Seq<usize>, e: Seq<usize>, x: usize)
    ensures
        followed_by(d, e).contains(x) <==> d.contains(x) || e.contains(x),
    decreases e.len(),
{
    let all = followed_by(d, e);
    if e.len() == 0 {
        reveal(Seq::filter);
        assert(all =~= d);
    } else {
        let before = e.drop_last();
        let last = e.last();
        lemma_followed_by_contains(d, before, x);
        assert(before.push(last) =~= e);
        lemma_followed_by_more(d, before, last);
        let less = followed_by(d, before);
        assert(e[e.len() - 1] == last);
        if less.contains(x) {
            let i = choose|i: int| 0 <= i < less.len() && less[i] == x;
            assert(all[i] == x);
        }
        if before.contains(x) {
            let i = choose|i: int| 0 <= i < before.len() && before[i] == x;
            assert(e[i] == x);
        }
        if e.contains(x) && !before.contains(x) {
            let i = choose|i: int| 0 <= i < e.len() && e[i] == x;
            if i < before.len() {
                assert(before[i] == x);
            }
            if !d.contains(x) {
                assert(all[all.len() - 1] == x);
            }
        }
        if all.contains(x) && !less.contains(x) {
            let i = choose|i: int| 0 <= i < all.len() && all[i] == x;
            if i < less.len() {
                assert(less[i] == x);
            }
        }
    }
}

/// A visit adds nothing to what has all that it could add.
proof fn lemma_visit_adds_nothing(nodes: Seq<Node>, id: usize, d: Seq<usize>, e: Seq<usize>)
    requires
        complete(nodes, d),
        d.contains(id),
    ensures
        followed_by(d, visit(nodes, id, e)) == followed_by(d, e),
    decreases id, children(nodes, id as int).len() + 1,
{
    if !e.contains(id) {
        let n = children(nodes, id as int).len();
        lemma_children_add_nothing(nodes, id, n, d, e);
        lemma_followed_by_more(d, visit_children(nodes, id, n, e), id);
    }
}

proof fn lemma_children_add_nothing(
    nodes: Seq<Node>,
    id: usize,
    k: nat,
    d: Seq<usize>,
    e: Seq<usize>,
)
    requires
        complete(nodes, d),
        d.contains(id),
        k <= children(nodes, id as int).len(),
    ensures
        followed_by(d, visit_children(nodes, id, k, e)) == followed_by(d, e),
    decreases id, k,
{
    if k > 0 {
        let child = children(nodes, id as int)[k - 1];
        assert(d.contains(child));
        if child < id {
            lemma_visit_adds_nothing(nodes, child, d, e);
            lemma_children_add_nothing(nodes, id, (k - 1) as nat, d, visit(nodes, child, e));
        }
    }
}

/// A visit goes the same way whatever else was done before.
proof fn lemma_visit_after(nodes: Seq<Node>, id: usize, d: Seq<usize>, e: Seq<usize>)
    requires
        complete(nodes, d),
    ensures
        visit(nodes, id, followed_by(d, e)) == followed_by(d, visit(nodes, id, e)),
    decreases id, children(nodes, id as int).len() + 1,
{
    lemma_followed_by_contains(d, e, id);
    if d.contains(id) {
        lemma_visit_adds_nothing(nodes, id, d, e);
    } else if !e.contains(id) {
        let n = children(nodes, id as int).len();
        lemma_children_after(nodes, id, n, d, e);
        lemma_followed_by_more(d, visit_children(nodes, id, n, e), id);
    }
}

proof fn lemma_children_after(
    nodes: Seq<Node>,
    id: usize,
    k: nat,
    d: Seq<usize>,
    e: Seq<usize>,
)
    requires
        complete(nodes, d),
        k <= children(nodes, id as int).len(),
    ensures
        visit_children(nodes, id, k, followed_by(d, e)) == followed_by(
            d,
            visit_children(nodes, id, k, e),
        ),
    decreases id, k,
{
    if k > 0 {
        let child = children(nodes, id as int)[k - 1];
        if child < id {
            lemma_visit_after(nodes, child, d, e);
            lemma_children_after(nodes, id, (k - 1) as nat, d, visit(nodes, child, e));
        }
    }
}

/// The order goes depth first: what the last input depends on comes first, in its own
/// order, then what else the first input depends on, in its own order, and then the value
/// itself.
pub proof fn law_depth_first(nodes: Seq<Node>, root: usize)
    requires
        nodes_wf(nodes),
        root < nodes.len(),
    ensures
        ({
            let inputs = children(nodes, root as int);
            let order = post_order(nodes, root);
            &&& inputs.len() <= 2
            &&& inputs.len() == 0 ==> order == seq![root]
            &&& inputs.len() == 1 ==> order == post_order(nodes, inputs[0]).push(root)
            &&& inputs.len() == 2 ==> ({
                let last = post_order(nodes, inputs[1]);
                let first = post_order(nodes, inputs[0]);
                order == (last + first.filter(|x: usize| !last.contains(x))).push(root)
            })
        }),
{
    let inputs = children(nodes, root as int);
    let none = Seq::<usize>::empty();
    assert(node_wf(nodes[root as int], root as int));
    assert(!none.contains(root));
    let order = post_order(nodes, root);
    assert(order == visit_children(nodes, root, inputs.len(), none).push(root));
    if inputs.len() == 0 {
        assert(order =~= seq![root]);
    } else if inputs.len() == 1 {
        lemma_child_below(nodes, root, 0);
        let only = visit(nodes, inputs[0], none);
        assert(visit_children(nodes, root, 1, none) == visit_children(nodes, root, 0, only));
    } else {
        lemma_child_below(nodes, root, 0);
        lemma_child_below(nodes, root, 1);
        let last = post_order(nodes, inputs[1]);
        law_post_order(nodes, inputs[1]);
        assert forall|x: usize, k: int|
            last.contains(x) && 0 <= k < children(nodes, x as int).len() implies last.contains(
            #[trigger] children(nodes, x as int)[k],
        ) by {
            let i = choose|i: int| 0 <= i < last.len() && last[i] == x;
            let child = children(nodes, last[i] as int)[k];
            assert(last.take(i).contains(child));
            let j = choose|j: int| 0 <= j < last.take(i).len() && last.take(i)[j] == child;
            assert(last[j] == child);
        }
        lemma_visit_after(nodes, inputs[0], last, none);
        assert(followed_by(last, none) =~= last) by {
            reveal(Seq::filter);
        }
        let both = visit(nodes, inputs[0], last);
        assert(visit_children(nodes, root, 2, none) == visit_children(nodes, root, 1, last));
        assert(visit_children(nodes, root, 1, last) == visit_children(nodes, root, 0, both));
    }
}

/// The sweep goes from the last value of an order to the first, and at each hands the
/// gradient on to its inputs, the first of them first.
pub proof fn law_sweep(nodes: Seq<Node>, order: Seq<usize>, id: usize)
    ensures
        sweep(nodes, Seq::empty()).len() == 0,
        ({
            let inputs = children(nodes, id as int);
            let steps = sweep(nodes, order.push(id));
            let n = inputs.len() as int;
            &&& steps.len() == n + sweep(nodes, order).len()
            &&& steps.skip(n) == sweep(nodes, order)
            &&& forall|k: int|
                0 <= k < n ==> (#[trigger] steps[k]).parent == id && steps[k].child == inputs[k]
                    && steps[k].local == local_grad(nodes, id, k)
        }),
{
    let n = children(nodes, id as int).len() as int;
    assert(order.push(id).drop_last() =~= order);
    assert(sweep(nodes, order.push(id)).skip(n) =~= sweep(nodes, order));
}

} // verus!
