//! The order in which the nodes under a root are visited.
//!
//! The order is the post-order of a depth-first walk from the root along
//! operand edges: a node is listed when all its operands have been, and a
//! node that is listed already is not walked again however many nodes use
//! it.

use vstd::prelude::*;
use std::collections::HashSet;
use crate::engine::{positions, Tape, Value};
use crate::graph::{node_ok, Node};

verus! {

/// The list `acc` after a walk from `n`: unchanged if `n` is listed already,
/// else extended by what the walks from the operands of `n` add, and then by
/// `n` itself.
pub open spec fn visit(g: Seq<Node>, n: int, acc: Seq<int>) -> Seq<int>
    decreases n, 1int, 0int,
{
    if acc.contains(n) {
        acc
    } else {
        visit_operands(g, n, 0, acc).push(n)
    }
}

/// The list `acc` after the walks from the operands of `n`, from operand `k`
/// on, one after the other.
pub open spec fn visit_operands(g: Seq<Node>, n: int, k: int, acc: Seq<int>) -> Seq<int>
    decreases n, 0int, g[n].operands.len() - k,
{
    if 0 <= k < g[n].operands.len() {
        let c = g[n].operands[k];
        let next = if 0 <= c < n {
            visit(g, c, acc)
        } else {
            acc
        };
        visit_operands(g, n, k + 1, next)
    } else {
        acc
    }
}

/// The nodes under `root` in the order of the walk, `root` last.
pub open spec fn post_order(g: Seq<Node>, root: int) -> Seq<int> {
    visit(g, root, Seq::empty())
}

/// `long` begins with `short`.
pub open spec fn begins_with(long: Seq<int>, short: Seq<int>) -> bool {
    &&& short.len() <= long.len()
    &&& forall|i: int| 0 <= i < short.len() ==> long[i] == short[i]
}

/// A walk never drops or moves what is listed, and what a walk from `n` adds
/// lies between 0 and `n`.
pub proof fn lemma_visit_grows(g: Seq<Node>, n: int, acc: Seq<int>)
    requires
        0 <= n,
    ensures
        begins_with(visit(g, n, acc), acc),
        forall|i: int| acc.len() <= i < visit(g, n, acc).len() ==> 0 <= #[trigger] visit(g, n, acc)[i] <= n,
        forall|x: int| acc.contains(x) ==> #[trigger] visit(g, n, acc).contains(x),
    decreases n, 1int, 0int,
{
    if !acc.contains(n) {
        lemma_visit_operands_grow(g, n, 0, acc);
    }
    let r = visit(g, n, acc);
    assert forall|x: int| acc.contains(x) implies #[trigger] r.contains(x) by {
        let i = choose|i: int| 0 <= i < acc.len() && acc[i] == x;
        assert(r[i] == x);
    }
}

/// A walk never drops or moves what is listed, and what the walks from the
/// operands of `n` add lies between 0 and `n - 1`.
pub proof fn lemma_visit_operands_grow(g: Seq<Node>, n: int, k: int, acc: Seq<int>)
    requires
        0 <= n,
    ensures
        begins_with(visit_operands(g, n, k, acc), acc),
        forall|i: int| acc.len() <= i < visit_operands(g, n, k, acc).len() ==> 0 <= #[trigger] visit_operands(g, n, k, acc)[i] < n,
        forall|x: int| acc.contains(x) ==> #[trigger] visit_operands(g, n, k, acc).contains(x),
    decreases n, 0int, g[n].operands.len() - k,
{
    if 0 <= k < g[n].operands.len() {
        let c = g[n].operands[k];
        let next = if 0 <= c < n {
            visit(g, c, acc)
        } else {
            acc
        };
        if 0 <= c < n {
            lemma_visit_grows(g, c, acc);
        }
        lemma_visit_operands_grow(g, n, k + 1, next);
    }
    let r = visit_operands(g, n, k, acc);
    assert forall|x: int| acc.contains(x) implies #[trigger] r.contains(x) by {
        let i = choose|i: int| 0 <= i < acc.len() && acc[i] == x;
        assert(r[i] == x);
    }
}

/// What a pushed list holds.
proof fn lemma_push_contains(s: Seq<int>, a: int)
    ensures
        forall|x: int| #[trigger] s.push(a).contains(x) <==> s.contains(x) || x == a,
{
    assert forall|x: int| #[trigger] s.push(a).contains(x) <==> s.contains(x) || x == a by {
        if s.contains(x) {
            let i = choose|i: int| 0 <= i < s.len() && s[i] == x;
            assert(s.push(a)[i] == x);
        }
        if x == a {
            assert(s.push(a)[s.len() as int] == x);
        }
        if s.push(a).contains(x) {
            let i = choose|i: int| 0 <= i < s.push(a).len() && s.push(a)[i] == x;
            if i < s.len() {
                assert(s[i] == x);
            }
        }
    }
}

/// The marks of the set agree with the list on every node up to `bound`.
pub open spec fn marks_agree(visited: Set<usize>, listed: Seq<int>, bound: int) -> bool {
    forall|x: usize|
        #![trigger visited.contains(x)]
        #![trigger listed.contains(x as int)]
        0 <= x <= bound ==> (visited.contains(x) <==> listed.contains(x as int))
}

impl Value {
    /// Walks from `self` and lists in `topo` the nodes that it finds unmarked,
    /// each after its operands, marking them in `visited`.
    ///
    /// The two go together: among the nodes up to `self`, `visited` must mark
    /// those that `topo` lists and no others, as it does when both start
    /// empty and are filled by this function alone.
    pub fn _build_topo(&self, tape: &Tape, topo: &mut Vec<Value>, visited: &mut HashSet<usize>)
        requires
            tape.wf(),
            tape.contains(*self),
            marks_agree(old(visited)@, positions(old(topo)@), self@),
        ensures
            positions(final(topo)@) == visit(tape@, self@, positions(old(topo)@)),
            forall|x: usize|
                #![trigger final(visited)@.contains(x)]
                #![trigger positions(final(topo)@).contains(x as int)]
                final(visited)@.contains(x) <==> old(visited)@.contains(x) || (positions(
                    final(topo)@,
                ).contains(x as int) && !positions(old(topo)@).contains(x as int)),
        decreases self@,
    {
        broadcast use vstd::std_specs::hash::group_hash_axioms;

        let ghost g = tape@;
        let ghost acc = positions(topo@);
        if visited.insert(self.index) {
            let node = tape.get(self);
            let n = node._prev.len();
            let mut k: usize = 0;
            while k < n
                invariant
                    tape.wf(),
                    tape.contains(*self),
                    g == tape@,
                    acc == positions(old(topo)@),
                    node@ == g[self@],
                    n == node._prev@.len(),
                    k <= n,
                    visit_operands(g, self@, k as int, positions(topo@)) == visit_operands(g, self@, 0, acc),
                    forall|x: int| acc.contains(x) ==> #[trigger] positions(topo@).contains(x),
                    forall|x: usize|
                        #![trigger visited@.contains(x)]
                        #![trigger positions(topo@).contains(x as int)]
                        0 <= x < self@ ==> (visited@.contains(x) <==> positions(topo@).contains(
                            x as int,
                        )),
                    forall|x: usize|
                        #![trigger visited@.contains(x)]
                        #![trigger positions(topo@).contains(x as int)]
                        visited@.contains(x) <==> old(visited)@.contains(x) || x == self.index || (
                        positions(topo@).contains(x as int) && !acc.contains(x as int)),
                decreases n - k,
            {
                let child = node._prev[k];
                let ghost before = positions(topo@);
                proof {
                    assert(node_ok(g, self@));
                    lemma_visit_grows(g, child@, before);
                }
                child._build_topo(tape, topo, visited);
                k += 1;
            }
            let ghost before = positions(topo@);
            topo.push(*self);
            proof {
                lemma_push_contains(before, self@);
            }
        } else {
            assert(acc.contains(self@));
        }
    }
}

} // verus!
