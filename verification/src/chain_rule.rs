//! Why the backward sweep is right: it computes what the chain rule says.
//!
//! Gradients are taken here as real numbers, for which sums and products are exact.
//! Nothing is said of what a local gradient is worth: the law holds whatever
//! number each of them stands for.

use vstd::prelude::*;

use crate::autograd::{
    law_post_order, local_grad, post_order, steps_of, sweep, topological, GradStep, LocalGrad,
};
use crate::exact::{exact, Functions};
use crate::tape::{
    below, children, law_one_pass_evaluates, lemma_expr_at, lemma_exprs_len, node_wf, nodes_wf, pick,
    worth_of, Expr, Node, Op, Tape,
};

verus! {

/// The gradients after one step.
pub open spec fn step(s: GradStep, worth: spec_fn(LocalGrad) -> real, grads: Seq<real>) -> Seq<real> {
    grads.update(
        s.child as int,
        grads[s.child as int] + worth(s.local) * grads[s.parent as int],
    )
}

/// The gradients after some steps, taken in order.
pub open spec fn run(
    steps: Seq<GradStep>,
    worth: spec_fn(LocalGrad) -> real,
    grads: Seq<real>,
) -> Seq<real>
    decreases steps.len(),
{
    if steps.len() == 0 {
        grads
    } else {
        step(steps.last(), worth, run(steps.drop_last(), worth, grads))
    }
}

/// The gradients that a sweep starts from: one at the root, zero elsewhere.
pub open spec fn seed(n: nat, root: usize) -> Seq<real> {
    Seq::new(n, |i: int| 0real).update(root as int, 1real)
}

/// The derivative of the value at `a` with respect to the value at `b`, by the
/// chain rule: one for the value itself, else the sum over the inputs of the
/// local gradient times the derivative of the input.
pub open spec fn derivative(
    nodes: Seq<Node>,
    worth: spec_fn(LocalGrad) -> real,
    a: usize,
    b: usize,
) -> real
    decreases a, children(nodes, a as int).len() + 1,
{
    if a == b {
        1real
    } else {
        through_inputs(nodes, worth, a, children(nodes, a as int).len(), b)
    }
}

/// What the first `k` inputs of `a` contribute to its derivative.
pub open spec fn through_inputs(
    nodes: Seq<Node>,
    worth: spec_fn(LocalGrad) -> real,
    a: usize,
    k: nat,
    b: usize,
) -> real
    decreases a, k,
{
    if k == 0 {
        0real
    } else {
        let child = children(nodes, a as int)[k - 1];
        if child < a {
            through_inputs(nodes, worth, a, (k - 1) as nat, b) + worth(
                local_grad(nodes, a, k - 1),
            ) * derivative(nodes, worth, child, b)
        } else {
            0real
        }
    }
}

/// The sum over the values in `order` of their gradient times their derivative
/// with respect to `b`.
spec fn flow(
    nodes: Seq<Node>,
    worth: spec_fn(LocalGrad) -> real,
    order: Seq<usize>,
    grads: Seq<real>,
    b: usize,
) -> real
    decreases order.len(),
{
    if order.len() == 0 {
        0real
    } else {
        flow(nodes, worth, order.drop_last(), grads, b) + grads[order.last() as int] * derivative(
            nodes,
            worth,
            order.last(),
            b,
        )
    }
}

proof fn lemma_run_concat(
    a: Seq<GradStep>,
    b: Seq<GradStep>,
    worth: spec_fn(LocalGrad) -> real,
    grads: Seq<real>,
)
    ensures
        run(a + b, worth, grads) == run(b, worth, run(a, worth, grads)),
    decreases b.len(),
{
    if b.len() == 0 {
        assert(a + b =~= a);
    } else {
        lemma_run_concat(a, b.drop_last(), worth, grads);
        assert((a + b).drop_last() =~= a + b.drop_last());
        assert((a + b).last() == b.last());
    }
}

/// A value does not depend on later ones.
proof fn lemma_no_derivative(
    nodes: Seq<Node>,
    worth: spec_fn(LocalGrad) -> real,
    a: usize,
    b: usize,
)
    requires
        a < b,
    ensures
        derivative(nodes, worth, a, b) == 0real,
    decreases a, children(nodes, a as int).len() + 1,
{
    lemma_nothing_through_inputs(nodes, worth, a, children(nodes, a as int).len(), b);
}

proof fn lemma_nothing_through_inputs(
    nodes: Seq<Node>,
    worth: spec_fn(LocalGrad) -> real,
    a: usize,
    k: nat,
    b: usize,
)
    requires
        a <= b,
    ensures
        through_inputs(nodes, worth, a, k, b) == 0real,
    decreases a, k,
{
    if k > 0 {
        let child = children(nodes, a as int)[k - 1];
        if child < a {
            lemma_nothing_through_inputs(nodes, worth, a, (k - 1) as nat, b);
            lemma_no_derivative(nodes, worth, child, b);
        }
    }
}

/// A change of one gradient changes the flow by as much as that value passes on.
proof fn lemma_flow_update(
    nodes: Seq<Node>,
    worth: spec_fn(LocalGrad) -> real,
    order: Seq<usize>,
    grads: Seq<real>,
    c: usize,
    by: real,
    b: usize,
)
    requires
        order.no_duplicates(),
        below(order, grads.len()),
        c < grads.len(),
    ensures
        flow(nodes, worth, order, grads.update(c as int, grads[c as int] + by), b) == flow(
            nodes,
            worth,
            order,
            grads,
            b,
        ) + if order.contains(c) {
            by * derivative(nodes, worth, c, b)
        } else {
            0real
        },
    decreases order.len(),
{
    if order.len() > 0 {
        let rest = order.drop_last();
        let last = order.last();
        let changed = grads.update(c as int, grads[c as int] + by);
        lemma_flow_update(nodes, worth, rest, grads, c, by, b);
        assert(order[order.len() - 1] == last);
        assert(last < grads.len());
        if last == c {
            assert(!rest.contains(c)) by {
                if rest.contains(c) {
                    let i = choose|i: int| 0 <= i < rest.len() && rest[i] == c;
                    assert(order[i] == order[order.len() - 1]);
                }
            }
            let d = derivative(nodes, worth, c, b);
            let g = grads[c as int];
            assert((g + by) * d == g * d + by * d) by (nonlinear_arith);
        } else {
            assert(changed[last as int] == grads[last as int]);
            if order.contains(c) {
                let i = choose|i: int| 0 <= i < order.len() && order[i] == c;
                assert(rest[i] == c);
            } else {
                assert forall|i: int| 0 <= i < rest.len() implies rest[i] != c by {
                    assert(order[i] == rest[i]);
                }
            }
        }
    }
}

/// What the first `k` steps of the value at `p` do.
proof fn lemma_steps_of(
    nodes: Seq<Node>,
    worth: spec_fn(LocalGrad) -> real,
    order: Seq<usize>,
    grads: Seq<real>,
    p: usize,
    k: nat,
    b: usize,
)
    requires
        nodes_wf(nodes),
        grads.len() == nodes.len(),
        p < nodes.len(),
        order.no_duplicates(),
        below(order, nodes.len()),
        forall|j: int|
            0 <= j < children(nodes, p as int).len() ==> order.contains(
                #[trigger] children(nodes, p as int)[j],
            ),
        k <= children(nodes, p as int).len(),
    ensures
        ({
            let after = run(steps_of(nodes, p).take(k as int), worth, grads);
            &&& after.len() == grads.len()
            &&& forall|x: usize|
                x < grads.len() && (x == p || !order.contains(x)) ==> #[trigger] after[x as int]
                    == grads[x as int]
            &&& flow(nodes, worth, order, after, b) == flow(nodes, worth, order, grads, b)
                + grads[p as int] * through_inputs(nodes, worth, p, k, b)
        }),
    decreases k,
{
    let steps = steps_of(nodes, p);
    if k == 0 {
        assert(steps.take(0) =~= Seq::<GradStep>::empty());
    } else {
        lemma_steps_of(nodes, worth, order, grads, p, (k - 1) as nat, b);
        assert(node_wf(nodes[p as int], p as int));
        let before = run(steps.take(k - 1), worth, grads);
        let s = steps[k - 1];
        assert(steps.take(k as int).drop_last() =~= steps.take(k - 1));
        assert(steps.take(k as int).last() == s);
        let child = children(nodes, p as int)[k - 1];
        assert(child < p);
        assert(before[p as int] == grads[p as int]);
        let by = worth(s.local) * grads[p as int];
        lemma_flow_update(nodes, worth, order, before, child, by, b);
        let w = worth(s.local);
        let g = grads[p as int];
        let d = derivative(nodes, worth, child, b);
        let t = through_inputs(nodes, worth, p, (k - 1) as nat, b);
        assert(g * (t + w * d) == g * t + (w * g) * d) by (nonlinear_arith);
    }
}

/// A sweep adds, at each listed value, what flows there from the listed values.
proof fn lemma_sweep(
    nodes: Seq<Node>,
    worth: spec_fn(LocalGrad) -> real,
    order: Seq<usize>,
    grads: Seq<real>,
    b: usize,
)
    requires
        nodes_wf(nodes),
        grads.len() == nodes.len(),
        topological(nodes, order),
        b < nodes.len(),
    ensures
        run(sweep(nodes, order), worth, grads)[b as int] == flow(nodes, worth, order, grads, b)
            + if order.contains(b) {
            0real
        } else {
            grads[b as int]
        },
    decreases order.len(),
{
    if order.len() > 0 {
        let rest = order.drop_last();
        let p = order.last();
        let n = children(nodes, p as int).len();
        let steps = steps_of(nodes, p);
        assert(order[order.len() - 1] == p);
        assert(order.take(order.len() - 1) =~= rest);
        assert forall|j: int| 0 <= j < n implies rest.contains(
            #[trigger] children(nodes, p as int)[j],
        ) by {
            assert(order.take(order.len() - 1).contains(
                children(nodes, order[order.len() - 1] as int)[j],
            ));
        }
        assert forall|i: int, k: int|
            0 <= i < rest.len() && 0 <= k < children(nodes, rest[i] as int).len() implies rest.take(
            i,
        ).contains(#[trigger] children(nodes, rest[i] as int)[k]) by {
            assert(order[i] == rest[i]);
            assert(order.take(i) =~= rest.take(i));
            assert(order.take(i).contains(children(nodes, order[i] as int)[k]));
        }
        assert(!rest.contains(p)) by {
            if rest.contains(p) {
                let i = choose|i: int| 0 <= i < rest.len() && rest[i] == p;
                assert(order[i] == order[order.len() - 1]);
            }
        }
        assert(steps.take(n as int) =~= steps);
        lemma_steps_of(nodes, worth, rest, grads, p, n, b);
        let after = run(steps, worth, grads);
        lemma_run_concat(steps, sweep(nodes, rest), worth, grads);
        lemma_sweep(nodes, worth, rest, after, b);
        if b == p {
            assert(node_wf(nodes[p as int], p as int));
            lemma_nothing_through_inputs(nodes, worth, p, n, b);
        } else {
            if order.contains(b) {
                let i = choose|i: int| 0 <= i < order.len() && order[i] == b;
                assert(rest[i] == b);
            } else {
                assert forall|i: int| 0 <= i < rest.len() implies rest[i] != b by {
                    assert(order[i] == rest[i]);
                }
            }
        }
    } else {
        assert(order =~= Seq::<usize>::empty());
    }
}

proof fn lemma_flow_of_nothing(
    nodes: Seq<Node>,
    worth: spec_fn(LocalGrad) -> real,
    order: Seq<usize>,
    grads: Seq<real>,
    b: usize,
)
    requires
        below(order, grads.len()),
        forall|i: int| 0 <= i < grads.len() ==> #[trigger] grads[i] == 0real,
    ensures
        flow(nodes, worth, order, grads, b) == 0real,
    decreases order.len(),
{
    if order.len() > 0 {
        assert(order[order.len() - 1] == order.last());
        lemma_flow_of_nothing(nodes, worth, order.drop_last(), grads, b);
    }
}

/// The backward sweep obeys the chain rule: after its steps, the gradient at
/// every value is the derivative of the root with respect to that value.
pub proof fn law_backward_is_the_chain_rule(
    nodes: Seq<Node>,
    worth: spec_fn(LocalGrad) -> real,
    root: usize,
    b: usize,
)
    requires
        nodes_wf(nodes),
        root < nodes.len(),
        b < nodes.len(),
    ensures
        run(sweep(nodes, post_order(nodes, root)), worth, seed(nodes.len(), root))[b as int]
            == derivative(nodes, worth, root, b),
{
    let order = post_order(nodes, root);
    let zeros = Seq::new(nodes.len(), |i: int| 0real);
    law_post_order(nodes, root);
    lemma_sweep(nodes, worth, order, seed(nodes.len(), root), b);
    lemma_flow_of_nothing(nodes, worth, order, zeros, b);
    lemma_flow_update(nodes, worth, order, zeros, root, 1real, b);
    assert(order[order.len() - 1] == root);
}

/// What the first `k` inputs of the value at `p`, where they are the value at `b`, get
/// from the gradient `g` of `p`.
pub open spec fn handed_on(
    nodes: Seq<Node>,
    worth: spec_fn(LocalGrad) -> real,
    p: usize,
    g: real,
    k: nat,
    b: usize,
) -> real
    decreases k,
{
    if k == 0 {
        0real
    } else {
        handed_on(nodes, worth, p, g, (k - 1) as nat, b) + if children(nodes, p as int)[k - 1]
            == b {
            worth(local_grad(nodes, p, k - 1)) * g
        } else {
            0real
        }
    }
}

/// What the value at `b` gets from the gradients of all listed values.
pub open spec fn received(
    nodes: Seq<Node>,
    worth: spec_fn(LocalGrad) -> real,
    order: Seq<usize>,
    grads: Seq<real>,
    b: usize,
) -> real
    decreases order.len(),
{
    if order.len() == 0 {
        0real
    } else {
        let p = order.last();
        received(nodes, worth, order.drop_last(), grads, b) + handed_on(
            nodes,
            worth,
            p,
            grads[p as int],
            children(nodes, p as int).len(),
            b,
        )
    }
}

/// The first `k` steps of the value at `p` hand its gradient on.
proof fn lemma_steps_hand_on(
    nodes: Seq<Node>,
    worth: spec_fn(LocalGrad) -> real,
    grads: Seq<real>,
    p: usize,
    k: nat,
    b: usize,
)
    requires
        nodes_wf(nodes),
        grads.len() == nodes.len(),
        p < nodes.len(),
        b < nodes.len(),
        k <= children(nodes, p as int).len(),
    ensures
        ({
            let after = run(steps_of(nodes, p).take(k as int), worth, grads);
            &&& after.len() == grads.len()
            &&& after[p as int] == grads[p as int]
            &&& after[b as int] == grads[b as int] + handed_on(
                nodes,
                worth,
                p,
                grads[p as int],
                k,
                b,
            )
        }),
    decreases k,
{
    let steps = steps_of(nodes, p);
    if k == 0 {
        assert(steps.take(0) =~= Seq::<GradStep>::empty());
    } else {
        lemma_steps_hand_on(nodes, worth, grads, p, (k - 1) as nat, b);
        assert(node_wf(nodes[p as int], p as int));
        assert(steps.take(k as int).drop_last() =~= steps.take(k - 1));
        assert(steps.take(k as int).last() == steps[k - 1]);
        assert(children(nodes, p as int)[k - 1] < p);
    }
}

/// What is no input of the listed values gets nothing from them.
proof fn lemma_received_by_none(
    nodes: Seq<Node>,
    worth: spec_fn(LocalGrad) -> real,
    order: Seq<usize>,
    grads: Seq<real>,
    b: usize,
)
    requires
        forall|i: int, k: int|
            0 <= i < order.len() && 0 <= k < children(nodes, order[i] as int).len()
                ==> #[trigger] children(nodes, order[i] as int)[k] != b,
    ensures
        received(nodes, worth, order, grads, b) == 0real,
    decreases order.len(),
{
    if order.len() > 0 {
        let rest = order.drop_last();
        let p = order.last();
        assert(order[order.len() - 1] == p);
        assert forall|i: int, k: int|
            0 <= i < rest.len() && 0 <= k < children(
                nodes,
                rest[i] as int,
            ).len() implies #[trigger] children(nodes, rest[i] as int)[k] != b by {
            assert(rest[i] == order[i]);
            assert(children(nodes, order[i] as int)[k] != b);
        }
        lemma_received_by_none(nodes, worth, rest, grads, b);
        assert forall|k: int| 0 <= k < children(nodes, p as int).len() implies #[trigger] children(
            nodes,
            p as int,
        )[k] != b by {
            assert(children(nodes, order[order.len() - 1] as int)[k] != b);
        }
        lemma_handed_on_to_none(
            nodes,
            worth,
            p,
            grads[p as int],
            children(nodes, p as int).len(),
            b,
        );
    }
}

proof fn lemma_handed_on_to_none(
    nodes: Seq<Node>,
    worth: spec_fn(LocalGrad) -> real,
    p: usize,
    g: real,
    k: nat,
    b: usize,
)
    requires
        k <= children(nodes, p as int).len(),
        forall|j: int|
            0 <= j < children(nodes, p as int).len() ==> #[trigger] children(nodes, p as int)[j]
                != b,
    ensures
        handed_on(nodes, worth, p, g, k, b) == 0real,
    decreases k,
{
    if k > 0 {
        lemma_handed_on_to_none(nodes, worth, p, g, (k - 1) as nat, b);
        assert(children(nodes, p as int)[k - 1] != b);
    }
}

/// The inputs of listed values come before them in the list.
proof fn lemma_topological_rest(nodes: Seq<Node>, order: Seq<usize>)
    requires
        topological(nodes, order),
        order.len() > 0,
    ensures
        topological(nodes, order.drop_last()),
        forall|i: int, k: int|
            0 <= i < order.len() && 0 <= k < children(nodes, order[i] as int).len()
                ==> #[trigger] children(nodes, order[i] as int)[k] != order.last(),
{
    let rest = order.drop_last();
    assert forall|i: int, k: int|
        0 <= i < rest.len() && 0 <= k < children(nodes, rest[i] as int).len() implies rest.take(
        i,
    ).contains(#[trigger] children(nodes, rest[i] as int)[k]) by {
        assert(order[i] == rest[i]);
        assert(order.take(i) =~= rest.take(i));
        assert(order.take(i).contains(children(nodes, order[i] as int)[k]));
    }
    assert forall|i: int| 0 <= i < rest.len() implies (#[trigger] rest[i]) < nodes.len() by {
        assert(order[i] == rest[i]);
    }
    assert forall|i: int, k: int|
        0 <= i < order.len() && 0 <= k < children(
            nodes,
            order[i] as int,
        ).len() implies #[trigger] children(nodes, order[i] as int)[k] != order.last() by {
        let child = children(nodes, order[i] as int)[k];
        assert(order.take(i).contains(child));
        let j = choose|j: int| 0 <= j < order.take(i).len() && order.take(i)[j] == child;
        assert(order[j] == child);
        assert(order[order.len() - 1] == order.last());
    }
}

/// A sweep adds to every gradient what the value gets from the listed values.
proof fn lemma_sweep_adds(
    nodes: Seq<Node>,
    worth: spec_fn(LocalGrad) -> real,
    order: Seq<usize>,
    grads: Seq<real>,
    b: usize,
)
    requires
        nodes_wf(nodes),
        grads.len() == nodes.len(),
        topological(nodes, order),
        b < nodes.len(),
    ensures
        ({
            let after = run(sweep(nodes, order), worth, grads);
            &&& after.len() == grads.len()
            &&& after[b as int] == grads[b as int] + received(nodes, worth, order, after, b)
        }),
    decreases order.len(),
{
    if order.len() > 0 {
        let rest = order.drop_last();
        let p = order.last();
        let n = children(nodes, p as int).len();
        let steps = steps_of(nodes, p);
        assert(order[order.len() - 1] == p);
        assert(steps.take(n as int) =~= steps);
        lemma_topological_rest(nodes, order);
        lemma_steps_hand_on(nodes, worth, grads, p, n, b);
        let mid = run(steps, worth, grads);
        lemma_run_concat(steps, sweep(nodes, rest), worth, grads);
        lemma_sweep_adds(nodes, worth, rest, mid, b);
        lemma_sweep_adds(nodes, worth, rest, mid, p);
        let after = run(sweep(nodes, order), worth, grads);
        assert forall|i: int, k: int|
            0 <= i < rest.len() && 0 <= k < children(
                nodes,
                rest[i] as int,
            ).len() implies #[trigger] children(nodes, rest[i] as int)[k] != p by {
            assert(rest[i] == order[i]);
            assert(children(nodes, order[i] as int)[k] != order.last());
        }
        lemma_received_by_none(nodes, worth, rest, after, p);
    }
}

/// The backward sweep adds to the gradients that are there: the root's is set to one,
/// and every other grows by the sum, over all values that the root depends on and all
/// their inputs that are the value, of the local gradient times the final gradient.
pub proof fn law_backward_adds_to_gradients(
    nodes: Seq<Node>,
    worth: spec_fn(LocalGrad) -> real,
    root: usize,
    start: Seq<real>,
    b: usize,
)
    requires
        nodes_wf(nodes),
        root < nodes.len(),
        b < nodes.len(),
        start.len() == nodes.len(),
    ensures
        ({
            let order = post_order(nodes, root);
            let after = run(sweep(nodes, order), worth, start.update(root as int, 1real));
            &&& after.len() == nodes.len()
            &&& after[root as int] == 1real
            &&& b != root ==> after[b as int] == start[b as int] + received(
                nodes,
                worth,
                order,
                after,
                b,
            )
        }),
{
    let order = post_order(nodes, root);
    let begun = start.update(root as int, 1real);
    law_post_order(nodes, root);
    lemma_topological_rest(nodes, order);
    lemma_sweep_adds(nodes, worth, order, begun, b);
    lemma_sweep_adds(nodes, worth, order, begun, root);
    lemma_received_by_none(
        nodes,
        worth,
        order,
        run(sweep(nodes, order), worth, begun),
        root,
    );
}

/// What a local gradient is worth, given the values of the tape; `power` gives the
/// slope of a power, from the value and the bits of the exponent.
pub open spec fn slope(
    local: LocalGrad,
    values: Seq<real>,
    power: spec_fn(real, u64) -> real,
) -> real {
    match local {
        LocalGrad::One => 1real,
        LocalGrad::MinusOne => -1real,
        LocalGrad::Value(i) => values[i as int],
        LocalGrad::Reciprocal(i) => 1real / values[i as int],
        LocalGrad::Step(i) => if values[i as int] > 0real {
            1real
        } else {
            0real
        },
        LocalGrad::Power(i, exponent) => power(values[i as int], exponent),
    }
}

/// What local gradients are worth, given the values of the tape.
pub open spec fn slopes(values: Seq<real>, power: spec_fn(real, u64) -> real) -> spec_fn(
    LocalGrad,
) -> real {
    |local: LocalGrad| slope(local, values, power)
}

/// The slope of an expression in its argument number `k`, where `apply` says what
/// operations compute.
pub open spec fn expr_slope(
    e: Expr,
    k: int,
    apply: spec_fn(Op, Seq<real>) -> real,
    power: spec_fn(real, u64) -> real,
) -> real {
    match e.op {
        Op::Mul => if k == 0 {
            worth_of(e.args[1], apply)
        } else {
            worth_of(e.args[0], apply)
        },
        Op::Neg => -1real,
        Op::Exp => worth_of(e, apply),
        Op::Log => 1real / worth_of(e.args[0], apply),
        Op::Relu => if worth_of(e.args[0], apply) > 0real {
            1real
        } else {
            0real
        },
        Op::Pow(exponent) => power(worth_of(e.args[0], apply), exponent),
        _ => 1real,
    }
}

/// The derivative of an expression with respect to the parameter `p`, by the chain
/// rule.
pub open spec fn expr_derivative(
    e: Expr,
    p: usize,
    apply: spec_fn(Op, Seq<real>) -> real,
    power: spec_fn(real, u64) -> real,
) -> real
    decreases e, e.args.len() + 1,
{
    if e.op == Op::Param(p) {
        1real
    } else if e.op.detached() {
        0real
    } else {
        through_args(e, e.args.len(), p, apply, power)
    }
}

/// What the first `k` arguments of an expression contribute to its derivative.
pub open spec fn through_args(
    e: Expr,
    k: nat,
    p: usize,
    apply: spec_fn(Op, Seq<real>) -> real,
    power: spec_fn(real, u64) -> real,
) -> real
    decreases e, k,
{
    if k == 0 || k > e.args.len() {
        0real
    } else {
        through_args(e, (k - 1) as nat, p, apply, power) + expr_slope(e, k - 1, apply, power)
            * expr_derivative(e.args[k - 1], p, apply, power)
    }
}

/// Whether every value of a tape is computed from the values of its inputs.
pub open spec fn evaluates(
    tape: Tape,
    apply: spec_fn(Op, Seq<real>) -> real,
    values: Seq<real>,
) -> bool {
    &&& values.len() == tape@.len()
    &&& forall|k: int|
        0 <= k < values.len() ==> #[trigger] values[k] == apply(
            tape.nodes@[k].op,
            pick(values, tape.nodes@[k].inputs@),
        )
}

/// The derivative of a value with respect to a parameter depends on nothing but the
/// expression that the value stands for, and on what expressions are worth.
pub proof fn law_derivative_follows_the_expression(
    tape: Tape,
    apply: spec_fn(Op, Seq<real>) -> real,
    power: spec_fn(real, u64) -> real,
    values: Seq<real>,
    a: usize,
    p: usize,
)
    requires
        tape.wf(),
        evaluates(tape, apply, values),
        a < tape@.len(),
        p < tape@.len(),
        tape.nodes@[p as int].op == Op::Param(p),
    ensures
        derivative(tape.nodes@, slopes(values, power), a, p) == expr_derivative(
            tape@[a as int],
            p,
            apply,
            power,
        ),
    decreases a, children(tape.nodes@, a as int).len() + 1,
{
    let nodes = tape.nodes@;
    lemma_exprs_len(nodes);
    assert(node_wf(nodes[a as int], a as int));
    lemma_expr_at(nodes, a as int);
    if a != p && !nodes[a as int].op.detached() {
        lemma_through_args(tape, apply, power, values, a, children(nodes, a as int).len(), p);
    }
}

proof fn lemma_through_args(
    tape: Tape,
    apply: spec_fn(Op, Seq<real>) -> real,
    power: spec_fn(real, u64) -> real,
    values: Seq<real>,
    a: usize,
    k: nat,
    p: usize,
)
    requires
        tape.wf(),
        evaluates(tape, apply, values),
        a < tape@.len(),
        p < tape@.len(),
        tape.nodes@[p as int].op == Op::Param(p),
        !tape.nodes@[a as int].op.detached(),
        k <= children(tape.nodes@, a as int).len(),
    ensures
        through_inputs(tape.nodes@, slopes(values, power), a, k, p) == through_args(
            tape@[a as int],
            k,
            p,
            apply,
            power,
        ),
    decreases a, k,
{
    let nodes = tape.nodes@;
    let e = tape@[a as int];
    let inputs = nodes[a as int].inputs@;
    lemma_exprs_len(nodes);
    assert(node_wf(nodes[a as int], a as int));
    lemma_expr_at(nodes, a as int);
    if k > 0 {
        let child = inputs[k - 1];
        assert(child < a);
        assert(e.args[k - 1] == tape@[child as int]);
        lemma_through_args(tape, apply, power, values, a, (k - 1) as nat, p);
        law_derivative_follows_the_expression(tape, apply, power, values, child, p);
        law_one_pass_evaluates(tape, apply, values, a as int);
        assert forall|j: int| 0 <= j < inputs.len() implies values[#[trigger] inputs[j] as int]
            == worth_of(e.args[j], apply) by {
            assert(inputs[j] < a);
            assert(e.args[j] == tape@[inputs[j] as int]);
            law_one_pass_evaluates(tape, apply, values, inputs[j] as int);
        }
        assert(slope(local_grad(nodes, a, k - 1), values, power) == expr_slope(
            e,
            k - 1,
            apply,
            power,
        ));
    }
}

/// The gradient that the backward sweep leaves at a parameter is the derivative of the
/// expression at the root, however the tape is laid out.
pub proof fn law_gradient_follows_the_expression(
    tape: Tape,
    apply: spec_fn(Op, Seq<real>) -> real,
    power: spec_fn(real, u64) -> real,
    values: Seq<real>,
    root: usize,
    p: usize,
)
    requires
        tape.wf(),
        evaluates(tape, apply, values),
        root < tape@.len(),
        p < tape@.len(),
        tape.nodes@[p as int].op == Op::Param(p),
    ensures
        run(
            sweep(tape.nodes@, post_order(tape.nodes@, root)),
            slopes(values, power),
            seed(tape@.len(), root),
        )[p as int] == expr_derivative(tape@[root as int], p, apply, power),
{
    lemma_exprs_len(tape.nodes@);
    law_backward_is_the_chain_rule(tape.nodes@, slopes(values, power), root, p);
    law_derivative_follows_the_expression(tape, apply, power, values, root, p);
}

/// The local gradients of sums, products, negations and rectifiers are their
/// slopes: a change of one input changes the result by the local gradient times
/// the change. For a rectifier this holds of changes that keep its input on its
/// side of zero.
pub proof fn law_local_gradients_are_slopes(
    nodes: Seq<Node>,
    f: Functions,
    power: spec_fn(real, u64) -> real,
    values: Seq<real>,
    id: usize,
    k: int,
    change: real,
)
    requires
        nodes_wf(nodes),
        values.len() == nodes.len(),
        id < nodes.len(),
        nodes[id as int].op == Op::Add || nodes[id as int].op == Op::Mul || nodes[id as int].op
            == Op::Neg || nodes[id as int].op == Op::Relu,
        0 <= k < nodes[id as int].inputs@.len(),
        nodes[id as int].op == Op::Relu ==> ({
            let x = values[nodes[id as int].inputs@[0] as int];
            if x > 0real {
                x + change >= 0real
            } else {
                x + change <= 0real
            }
        }),
    ensures
        ({
            let op = nodes[id as int].op;
            let args = pick(values, nodes[id as int].inputs@);
            exact(f, op, args.update(k, args[k] + change)) == exact(f, op, args) + slope(
                local_grad(nodes, id, k),
                values,
                power,
            ) * change
        }),
{
    assert(node_wf(nodes[id as int], id as int));
    let inputs = nodes[id as int].inputs@;
    if nodes[id as int].op == Op::Mul {
        let a = values[inputs[0] as int];
        let b = values[inputs[1] as int];
        assert((a + change) * b == a * b + b * change) by (nonlinear_arith);
        assert(a * (b + change) == a * b + a * change) by (nonlinear_arith);
    }
}

/// What the local gradients are worth, operation by operation: one for a sum, the other
/// factor for a product, minus one for a negation, the result for an exponential, one over
/// the input for a logarithm, one or zero for a rectifier, and the slope of the power for
/// a power.
pub proof fn law_local_gradients(
    nodes: Seq<Node>,
    power: spec_fn(real, u64) -> real,
    values: Seq<real>,
    id: usize,
    k: int,
)
    requires
        nodes_wf(nodes),
        id < nodes.len(),
        0 <= k < nodes[id as int].inputs@.len(),
    ensures
        ({
            let inputs = nodes[id as int].inputs@;
            let worth = slope(local_grad(nodes, id, k), values, power);
            let x = values[inputs[0] as int];
            match nodes[id as int].op {
                Op::Add => worth == 1real,
                Op::Mul => worth == values[inputs[1 - k] as int],
                Op::Neg => worth == -1real,
                Op::Exp => worth == values[id as int],
                Op::Log => worth == 1real / x,
                Op::Relu => (x > 0real ==> worth == 1real) && (x <= 0real ==> worth == 0real),
                Op::Pow(exponent) => worth == power(x, exponent),
                _ => true,
            }
        }),
{
    assert(node_wf(nodes[id as int], id as int));
}

/// A gradient flows from every sum, product, negation, exponential, logarithm, rectifier
/// and power to all its inputs, and from nothing else.
pub proof fn law_where_gradients_flow(nodes: Seq<Node>, i: int)
    ensures
        ({
            let op = nodes[i].op;
            let flows = op == Op::Add || op == Op::Mul || op == Op::Neg || op == Op::Exp || op
                == Op::Log || op == Op::Relu || op is Pow;
            &&& flows ==> children(nodes, i) == nodes[i].inputs@
            &&& !flows && node_wf(nodes[i], i) ==> children(nodes, i).len() == 0
        }),
{
}

} // verus!
