//! What holds of every walk and of every gradient pass.

use vstd::prelude::*;
use crate::backward::{backward_steps, local_steps, sweep, StepModel};
use crate::graph::{node_ok, well_formed, Node, Op};
use crate::order::{lemma_visit_grows, lemma_visit_operands_grow, post_order, visit, visit_operands};

verus! {

/// Node `a` reaches node `b` along operand edges: `b` is `a`, or an operand
/// of `a` reaches `b`.
pub open spec fn reaches(g: Seq<Node>, a: int, b: int) -> bool
    decreases a,
{
    a == b || exists|k: int|
        0 <= k < g[a].operands.len() && 0 <= #[trigger] g[a].operands[k] < a && reaches(
            g,
            g[a].operands[k],
            b,
        )
}

/// A node reaches only itself and nodes that stand before it.
pub proof fn reaches_leads_downward(g: Seq<Node>, a: int, b: int)
    requires
        0 <= a,
        reaches(g, a, b),
    ensures
        0 <= b <= a,
    decreases a,
{
    if a != b {
        let k = choose|k: int|
            0 <= k < g[a].operands.len() && 0 <= #[trigger] g[a].operands[k] < a && reaches(
                g,
                g[a].operands[k],
                b,
            );
        reaches_leads_downward(g, g[a].operands[k], b);
    }
}

/// A well-formed graph has no cycle: no operand of a node reaches that
/// node.
pub proof fn well_formed_graph_has_no_cycle(g: Seq<Node>, a: int, k: int)
    requires
        well_formed(g),
        0 <= a < g.len(),
        0 <= k < g[a].operands.len(),
    ensures
        !reaches(g, g[a].operands[k], a),
{
    assert(node_ok(g, a));
    if reaches(g, g[a].operands[k], a) {
        reaches_leads_downward(g, g[a].operands[k], a);
    }
}

/// `x` is listed in `acc` before position `i`.
pub open spec fn listed_before(acc: Seq<int>, i: int, x: int) -> bool {
    exists|j: int| 0 <= j < i && j < acc.len() && #[trigger] acc[j] == x
}

/// `acc` lists nodes of `g`, none of them twice, and each after all its
/// operands.
pub open spec fn ordered(g: Seq<Node>, acc: Seq<int>) -> bool {
    &&& forall|i: int| 0 <= i < acc.len() ==> 0 <= #[trigger] acc[i] < g.len()
    &&& acc.no_duplicates()
    &&& forall|i: int, k: int|
        0 <= i < acc.len() && 0 <= k < g[acc[i]].operands.len() ==> listed_before(
            acc,
            i,
            #[trigger] g[acc[i]].operands[k],
        )
}

/// An operand of `n` reaches no more than `n` does.
proof fn lemma_reaches_through(g: Seq<Node>, n: int, k: int, x: int)
    requires
        0 <= k < g[n].operands.len(),
        0 <= g[n].operands[k] < n,
        reaches(g, g[n].operands[k], x),
    ensures
        reaches(g, n, x),
{
}

/// A walk from `n` keeps a list ordered, lists `n`, and adds only nodes that
/// `n` reaches and that were not listed.
proof fn lemma_visit_ordered(g: Seq<Node>, n: int, acc: Seq<int>)
    requires
        well_formed(g),
        0 <= n < g.len(),
        ordered(g, acc),
    ensures
        ordered(g, visit(g, n, acc)),
        visit(g, n, acc).contains(n),
        forall|i: int|
            acc.len() <= i < visit(g, n, acc).len() ==> reaches(g, n, #[trigger] visit(g, n, acc)[i])
                && !acc.contains(visit(g, n, acc)[i]),
    decreases n, 1int, 0int,
{
    if !acc.contains(n) {
        let inner = visit_operands(g, n, 0, acc);
        let r = inner.push(n);
        lemma_visit_operands_ordered(g, n, 0, acc);
        lemma_visit_operands_grow(g, n, 0, acc);
        assert forall|i: int| 0 <= i < inner.len() implies inner[i] != n by {
            if i < acc.len() {
                assert(acc[i] == inner[i]);
            }
        }
        assert forall|i: int, k: int|
            0 <= i < r.len() && 0 <= k < g[r[i]].operands.len() implies listed_before(
            r,
            i,
            #[trigger] g[r[i]].operands[k],
        ) by {
            let x = g[r[i]].operands[k];
            if i < inner.len() {
                let j = choose|j: int| 0 <= j < i && j < inner.len() && #[trigger] inner[j] == x;
                assert(r[j] == x);
            } else {
                let j = choose|j: int| 0 <= j < inner.len() && inner[j] == x;
                assert(r[j] == x);
            }
        }
        assert(r[inner.len() as int] == n);
        assert(reaches(g, n, n));
    }
}

/// The walks from the operands of `n`, from operand `k` on, keep a list
/// ordered, list every operand of `n` if those before `k` were listed, and
/// add only nodes that `n` reaches and that were not listed.
proof fn lemma_visit_operands_ordered(g: Seq<Node>, n: int, k: int, acc: Seq<int>)
    requires
        well_formed(g),
        0 <= n < g.len(),
        0 <= k <= g[n].operands.len(),
        ordered(g, acc),
        forall|j: int| 0 <= j < k ==> acc.contains(#[trigger] g[n].operands[j]),
    ensures
        ordered(g, visit_operands(g, n, k, acc)),
        forall|j: int|
            0 <= j < g[n].operands.len() ==> visit_operands(g, n, k, acc).contains(
                #[trigger] g[n].operands[j],
            ),
        forall|i: int|
            acc.len() <= i < visit_operands(g, n, k, acc).len() ==> reaches(
                g,
                n,
                #[trigger] visit_operands(g, n, k, acc)[i],
            ) && !acc.contains(visit_operands(g, n, k, acc)[i]),
    decreases n, 0int, g[n].operands.len() - k,
{
    if k < g[n].operands.len() {
        assert(node_ok(g, n));
        let c = g[n].operands[k];
        assert(0 <= c < n);
        let next = visit(g, c, acc);
        let r = visit_operands(g, n, k + 1, next);
        assert(r == visit_operands(g, n, k, acc));
        lemma_visit_ordered(g, c, acc);
        lemma_visit_grows(g, c, acc);
        assert forall|j: int| 0 <= j < k + 1 implies next.contains(#[trigger] g[n].operands[j]) by {
            if j < k {
                assert(acc.contains(g[n].operands[j]));
            }
        }
        lemma_visit_operands_ordered(g, n, k + 1, next);
        lemma_visit_operands_grow(g, n, k + 1, next);
        assert forall|i: int| acc.len() <= i < r.len() implies reaches(g, n, #[trigger] r[i])
            && !acc.contains(r[i]) by {
            if i < next.len() {
                lemma_reaches_through(g, n, k, next[i]);
            } else {
                if acc.contains(r[i]) {
                    assert(next.contains(r[i]));
                }
            }
        }
    }
}

/// A node that a listed node reaches is listed too.
proof fn lemma_ordered_closed(g: Seq<Node>, acc: Seq<int>, a: int, b: int)
    requires
        ordered(g, acc),
        acc.contains(a),
        reaches(g, a, b),
    ensures
        acc.contains(b),
    decreases a,
{
    if a != b {
        let k = choose|k: int|
            0 <= k < g[a].operands.len() && 0 <= #[trigger] g[a].operands[k] < a && reaches(
                g,
                g[a].operands[k],
                b,
            );
        let i = choose|i: int| 0 <= i < acc.len() && acc[i] == a;
        assert(listed_before(acc, i, g[acc[i]].operands[k]));
        let j = choose|j: int| 0 <= j < i && j < acc.len() && #[trigger] acc[j] == g[a].operands[k];
        assert(acc.contains(g[a].operands[k]));
        lemma_ordered_closed(g, acc, g[a].operands[k], b);
    }
}

/// The order of a walk lists every node that the root reaches and no other,
/// each of them once, however many nodes use it.
pub proof fn post_order_lists_each_reached_node_once(g: Seq<Node>, root: int)
    requires
        well_formed(g),
        0 <= root < g.len(),
    ensures
        post_order(g, root).no_duplicates(),
        forall|x: int| #[trigger] post_order(g, root).contains(x) <==> reaches(g, root, x),
{
    let order = post_order(g, root);
    lemma_visit_ordered(g, root, Seq::empty());
    assert forall|x: int| #[trigger] order.contains(x) <==> reaches(g, root, x) by {
        if order.contains(x) {
            let i = choose|i: int| 0 <= i < order.len() && order[i] == x;
            assert(reaches(g, root, order[i]));
        }
        if reaches(g, root, x) {
            lemma_ordered_closed(g, order, root, x);
        }
    }
}

/// In the order of a walk every node stands after all its operands, and the
/// root stands last: read backwards, the order runs from the root to the
/// literals and meets every node before any of its operands.
pub proof fn post_order_lists_operands_first(g: Seq<Node>, root: int)
    requires
        well_formed(g),
        0 <= root < g.len(),
    ensures
        post_order(g, root).len() > 0,
        post_order(g, root).last() == root,
        forall|i: int, k: int|
            0 <= i < post_order(g, root).len() && 0 <= k < g[post_order(g, root)[i]].operands.len()
                ==> listed_before(
                post_order(g, root),
                i,
                #[trigger] g[post_order(g, root)[i]].operands[k],
            ),
{
    lemma_visit_ordered(g, root, Seq::empty());
}

/// The position in `order` of the node whose rule gives step `i` of the
/// sweep over `order`.
spec fn owner(g: Seq<Node>, order: Seq<int>, i: int) -> int
    decreases order.len(),
{
    if order.len() == 0 {
        -1
    } else if i < local_steps(g, order.last()).len() {
        order.len() - 1
    } else {
        owner(g, order.drop_last(), i - local_steps(g, order.last()).len())
    }
}

/// Which step of its node's rule step `i` of the sweep over `order` is.
spec fn slot(g: Seq<Node>, order: Seq<int>, i: int) -> int
    decreases order.len(),
{
    if order.len() == 0 {
        -1
    } else if i < local_steps(g, order.last()).len() {
        i
    } else {
        slot(g, order.drop_last(), i - local_steps(g, order.last()).len())
    }
}

/// Every step of a sweep is a step of the rule of the node that owns it.
proof fn lemma_sweep_owner(g: Seq<Node>, order: Seq<int>, i: int)
    requires
        0 <= i < sweep(g, order).len(),
    ensures
        0 <= owner(g, order, i) < order.len(),
        0 <= slot(g, order, i) < local_steps(g, order[owner(g, order, i)]).len(),
        sweep(g, order)[i] == local_steps(g, order[owner(g, order, i)])[slot(g, order, i)],
    decreases order.len(),
{
    if order.len() > 0 {
        let first = local_steps(g, order.last());
        if i >= first.len() {
            lemma_sweep_owner(g, order.drop_last(), i - first.len());
        }
    }
}

/// Later steps of a sweep belong to earlier nodes of the order.
proof fn lemma_sweep_owner_falls(g: Seq<Node>, order: Seq<int>, a: int, b: int)
    requires
        0 <= a <= b < sweep(g, order).len(),
    ensures
        owner(g, order, a) >= owner(g, order, b),
    decreases order.len(),
{
    if order.len() > 0 {
        let first = local_steps(g, order.last());
        if a >= first.len() {
            lemma_sweep_owner_falls(g, order.drop_last(), a - first.len(), b - first.len());
        } else if b >= first.len() {
            lemma_sweep_owner(g, order.drop_last(), b - first.len());
        }
    }
}

/// A step of the rule of node `n` reads the gradient of `n` and adds to that
/// of an operand of `n`.
proof fn lemma_local_step(g: Seq<Node>, n: int, k: int)
    requires
        well_formed(g),
        0 <= n < g.len(),
        0 <= k < local_steps(g, n).len(),
    ensures
        local_steps(g, n)[k].adds(),
        local_steps(g, n)[k].source() == n,
        exists|j: int|
            0 <= j < g[n].operands.len() && local_steps(g, n)[k].target() == #[trigger] g[n].operands[j],
{
    assert(node_ok(g, n));
    let s = local_steps(g, n)[k];
    if s.target() != g[n].operands[0] {
        assert(s.target() == g[n].operands[1]);
    }
}

/// A gradient pass begins with the seed of its root, and every later step
/// adds to a gradient: none sets one.
pub proof fn backward_steps_seed_once(g: Seq<Node>, root: int)
    requires
        well_formed(g),
        0 <= root < g.len(),
    ensures
        backward_steps(g, root).len() >= 1,
        backward_steps(g, root)[0] == (StepModel::Seed { node: root }),
        forall|i: int| 1 <= i < backward_steps(g, root).len() ==> (#[trigger] backward_steps(g, root)[i]).adds(),
{
    let order = post_order(g, root);
    let p = backward_steps(g, root);
    lemma_visit_ordered(g, root, Seq::empty());
    assert forall|i: int| 1 <= i < p.len() implies (#[trigger] p[i]).adds() by {
        lemma_sweep_owner(g, order, i - 1);
        lemma_local_step(g, order[owner(g, order, i - 1)], slot(g, order, i - 1));
    }
}

/// Every step of a gradient pass after the seed is a step of the rule of a
/// node that the root reaches. So a power hands gradient to its base alone,
/// and never to its exponent.
pub proof fn backward_steps_follow_rules(g: Seq<Node>, root: int)
    requires
        well_formed(g),
        0 <= root < g.len(),
    ensures
        forall|i: int|
            1 <= i < backward_steps(g, root).len() ==> {
                let s = #[trigger] backward_steps(g, root)[i];
                &&& reaches(g, root, s.source())
                &&& exists|k: int|
                    0 <= k < local_steps(g, s.source()).len() && s == #[trigger] local_steps(
                        g,
                        s.source(),
                    )[k]
            },
{
    let order = post_order(g, root);
    let p = backward_steps(g, root);
    lemma_visit_ordered(g, root, Seq::empty());
    assert forall|i: int| 1 <= i < p.len() implies {
        let s = #[trigger] p[i];
        &&& reaches(g, root, s.source())
        &&& exists|k: int|
            0 <= k < local_steps(g, s.source()).len() && s == #[trigger] local_steps(g, s.source())[k]
    } by {
        lemma_sweep_owner(g, order, i - 1);
        let j = owner(g, order, i - 1);
        let k = slot(g, order, i - 1);
        lemma_local_step(g, order[j], k);
    }
}

/// In a gradient pass a power hands gradient to its base alone: no step
/// that reads the gradient of a power writes that of its exponent or of any
/// other node.
pub proof fn backward_steps_keep_exponents_constant(g: Seq<Node>, root: int)
    requires
        well_formed(g),
        0 <= root < g.len(),
    ensures
        forall|i: int|
            1 <= i < backward_steps(g, root).len() ==> {
                let s = #[trigger] backward_steps(g, root)[i];
                g[s.source()].op == Some(Op::Pow) ==> s.target() == g[s.source()].operands[0]
            },
{
    backward_steps_follow_rules(g, root);
}

/// A sweep over `order` holds every step of the rule of every listed node.
proof fn lemma_sweep_holds(g: Seq<Node>, order: Seq<int>, j: int, k: int) -> (i: int)
    requires
        0 <= j < order.len(),
        0 <= k < local_steps(g, order[j]).len(),
    ensures
        0 <= i < sweep(g, order).len(),
        sweep(g, order)[i] == local_steps(g, order[j])[k],
    decreases order.len(),
{
    let first = local_steps(g, order.last());
    if j == order.len() - 1 {
        k
    } else {
        let inner = lemma_sweep_holds(g, order.drop_last(), j, k);
        first.len() + inner
    }
}

/// A gradient pass holds every step of the rule of every node that the
/// root reaches: no contribution to a gradient is left out.
pub proof fn backward_steps_hold_every_rule(g: Seq<Node>, root: int, n: int, k: int)
    requires
        well_formed(g),
        0 <= root < g.len(),
        reaches(g, root, n),
        0 <= k < local_steps(g, n).len(),
    ensures
        exists|i: int|
            1 <= i < backward_steps(g, root).len() && #[trigger] backward_steps(g, root)[i]
                == local_steps(g, n)[k],
{
    let order = post_order(g, root);
    post_order_lists_each_reached_node_once(g, root);
    assert(order.contains(n));
    let j = choose|j: int| 0 <= j < order.len() && order[j] == n;
    let i = lemma_sweep_holds(g, order, j, k);
    assert(backward_steps(g, root)[i + 1] == sweep(g, order)[i]);
}

/// In a gradient pass every step that writes the gradient of a node comes
/// before every step that reads it: when the rule of a node has its turn,
/// all the nodes that use it have made their contributions.
pub proof fn backward_steps_gather_before_giving(g: Seq<Node>, root: int)
    requires
        well_formed(g),
        0 <= root < g.len(),
    ensures
        forall|a: int, b: int|
            0 <= a < backward_steps(g, root).len() && 1 <= b < backward_steps(g, root).len()
                && (#[trigger] backward_steps(g, root)[a]).target() == (#[trigger] backward_steps(
                g,
                root,
            )[b]).source() ==> a < b,
{
    let order = post_order(g, root);
    let p = backward_steps(g, root);
    lemma_visit_ordered(g, root, Seq::empty());
    assert forall|a: int, b: int|
        0 <= a < p.len() && 1 <= b < p.len() && (#[trigger] p[a]).target() == (#[trigger] p[b]).source() implies a
        < b by {
        if a >= b {
            lemma_sweep_owner(g, order, a - 1);
            lemma_sweep_owner(g, order, b - 1);
            lemma_sweep_owner_falls(g, order, b - 1, a - 1);
            let ja = owner(g, order, a - 1);
            let jb = owner(g, order, b - 1);
            lemma_local_step(g, order[ja], slot(g, order, a - 1));
            lemma_local_step(g, order[jb], slot(g, order, b - 1));
            let k = choose|k: int|
                0 <= k < g[order[ja]].operands.len() && p[a].target() == #[trigger] g[order[ja]].operands[k];
            assert(listed_before(order, ja, g[order[ja]].operands[k]));
            let j = choose|j: int| 0 <= j < ja && j < order.len() && #[trigger] order[j] == p[a].target();
            assert(order[j] == order[jb]);
            assert(false);
        }
    }
}

/// The number of steps of `steps` that read the gradient of `n` to add to
/// another.
pub open spec fn times_read(steps: Seq<StepModel>, n: int) -> nat
    decreases steps.len(),
{
    if steps.len() == 0 {
        0
    } else {
        let rest = times_read(steps.drop_last(), n);
        if steps.last().adds() && steps.last().source() == n {
            rest + 1
        } else {
            rest
        }
    }
}

/// What two lists of steps read together is what each reads.
proof fn lemma_times_read_add(s: Seq<StepModel>, t: Seq<StepModel>, n: int)
    ensures
        times_read(s + t, n) == times_read(s, n) + times_read(t, n),
    decreases t.len(),
{
    if t.len() == 0 {
        assert(s + t =~= s);
    } else {
        assert((s + t).drop_last() =~= s + t.drop_last());
        lemma_times_read_add(s, t.drop_last(), n);
    }
}

/// The rule of node `m` reads the gradient of `m` in each of its steps and
/// that of no other node.
proof fn lemma_times_read_local(g: Seq<Node>, m: int, n: int)
    requires
        well_formed(g),
        0 <= m < g.len(),
    ensures
        times_read(local_steps(g, m), n) == if m == n {
            local_steps(g, m).len()
        } else {
            0
        },
{
    let l = local_steps(g, m);
    assert(node_ok(g, m));
    reveal_with_fuel(times_read, 3);
    if l.len() == 2 {
        assert(l.drop_last().len() == 1);
    } else if l.len() == 1 {
        assert(l.drop_last().len() == 0);
    }
}

/// A sweep reads the gradient of a listed node once for every step of the
/// node's rule, and that of an unlisted node never.
proof fn lemma_times_read_sweep(g: Seq<Node>, order: Seq<int>, n: int)
    requires
        well_formed(g),
        order.no_duplicates(),
        forall|i: int| 0 <= i < order.len() ==> 0 <= #[trigger] order[i] < g.len(),
    ensures
        times_read(sweep(g, order), n) == if order.contains(n) {
            local_steps(g, n).len()
        } else {
            0
        },
    decreases order.len(),
{
    if order.len() > 0 {
        let rest = order.drop_last();
        lemma_times_read_add(local_steps(g, order.last()), sweep(g, rest), n);
        lemma_times_read_local(g, order.last(), n);
        lemma_times_read_sweep(g, rest, n);
        if order.last() == n {
            if rest.contains(n) {
                let i = choose|i: int| 0 <= i < rest.len() && rest[i] == n;
                assert(order[i] == n);
            }
        } else {
            if order.contains(n) {
                let i = choose|i: int| 0 <= i < order.len() && order[i] == n;
                assert(rest[i] == n);
            }
            if rest.contains(n) {
                let i = choose|i: int| 0 <= i < rest.len() && rest[i] == n;
                assert(order[i] == n);
            }
        }
    }
}

/// In a gradient pass the rule of every node that the root reaches has its
/// turn exactly once, however many nodes use that node, and the rule of no
/// other node has a turn.
pub proof fn backward_steps_fire_each_rule_once(g: Seq<Node>, root: int, n: int)
    requires
        well_formed(g),
        0 <= root < g.len(),
    ensures
        times_read(backward_steps(g, root), n) == if reaches(g, root, n) {
            local_steps(g, n).len()
        } else {
            0
        },
{
    let order = post_order(g, root);
    let seed = seq![StepModel::Seed { node: root }];
    lemma_visit_ordered(g, root, Seq::empty());
    post_order_lists_each_reached_node_once(g, root);
    lemma_times_read_add(seed, sweep(g, order), n);
    lemma_times_read_sweep(g, order, n);
    assert(times_read(seed, n) == 0) by {
        reveal_with_fuel(times_read, 2);
    }
}

} // verus!
