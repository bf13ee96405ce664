//! Transitive mutation, derived from the direct facts: a node mutates another
//! when it, or something it calls directly or indirectly, writes state that
//! the other contains (or is).
use vstd::prelude::*;

use crate::graph::{edge_at, edge_count, graph_edges, graph_nodes, node_count, Edge, ProgramGraph, Relation};

verus! {

/// An edge of fact `r` leads from `from` to `to`.
pub open spec fn step(edges: Seq<Edge>, r: Relation, from: int, to: int) -> bool {
    exists|k: int|
        0 <= k < edges.len() && (#[trigger] edges[k]).relation == r && edges[k].source == from
            && edges[k].target == to
}

/// `to` is reached from `from` in at most `n` edges of fact `r`.
pub open spec fn reach_within(edges: Seq<Edge>, r: Relation, from: int, to: int, n: nat) -> bool
    decreases n,
{
    if n == 0 {
        from == to
    } else {
        reach_within(edges, r, from, to, (n - 1) as nat) || exists|mid: int|
            reach_within(edges, r, from, mid, (n - 1) as nat) && #[trigger] step(edges, r, mid, to)
    }
}

/// `to` is reached from `from` along edges of fact `r` (in zero or more).
pub open spec fn reaches(edges: Seq<Edge>, r: Relation, from: int, to: int) -> bool {
    exists|n: nat| #[trigger] reach_within(edges, r, from, to, n)
}

/// `source` mutates `target`: something that `source` reaches by calls
/// writes something that `target` reaches by containment.
pub open spec fn mutation(edges: Seq<Edge>, source: int, target: int) -> bool {
    exists|caller: int, state: int|
        #![trigger reaches(edges, Relation::Calls, source, caller), reaches(edges, Relation::Contains, target, state)]
        reaches(edges, Relation::Calls, source, caller) && reaches(
            edges,
            Relation::Contains,
            target,
            state,
        ) && step(edges, Relation::Writes, caller, state)
}

/// The number of set flags.
pub open spec fn count_set(s: Seq<bool>) -> nat
    decreases s.len(),
{
    if s.len() == 0 {
        0
    } else {
        count_set(s.drop_last()) + if s.last() {
            1nat
        } else {
            0nat
        }
    }
}

proof fn lemma_count_bound(s: Seq<bool>)
    ensures
        count_set(s) <= s.len(),
    decreases s.len(),
{
    if s.len() > 0 {
        lemma_count_bound(s.drop_last());
    }
}

/// Setting more flags, pointwise, counts more.
proof fn lemma_count_grows(a: Seq<bool>, b: Seq<bool>, i: int)
    requires
        a.len() == b.len(),
        forall|j: int| 0 <= j < a.len() ==> a[j] ==> b[j],
        0 <= i < a.len(),
        !a[i] && b[i],
    ensures
        count_set(a) < count_set(b),
    decreases a.len(),
{
    if i == a.len() - 1 {
        lemma_count_monotone(a.drop_last(), b.drop_last());
    } else {
        lemma_count_grows(a.drop_last(), b.drop_last(), i);
    }
}

proof fn lemma_count_monotone(a: Seq<bool>, b: Seq<bool>)
    requires
        a.len() == b.len(),
        forall|j: int| 0 <= j < a.len() ==> a[j] ==> b[j],
    ensures
        count_set(a) <= count_set(b),
    decreases a.len(),
{
    if a.len() > 0 {
        lemma_count_monotone(a.drop_last(), b.drop_last());
    }
}

/// Reaching within fewer edges is reaching within more.
proof fn lemma_reach_monotone(edges: Seq<Edge>, r: Relation, from: int, to: int, i: nat, j: nat)
    requires
        i <= j,
        reach_within(edges, r, from, to, i),
    ensures
        reach_within(edges, r, from, to, j),
    decreases j,
{
    if i < j {
        lemma_reach_monotone(edges, r, from, to, i, (j - 1) as nat);
    }
}

/// Once one more edge reaches nothing new, no number of edges does.
proof fn lemma_reach_fixpoint(edges: Seq<Edge>, r: Relation, from: int, i: nat, j: nat, to: int)
    requires
        forall|x: int|
            #[trigger] reach_within(edges, r, from, x, i + 1) ==> reach_within(edges, r, from, x, i),
        reach_within(edges, r, from, to, j),
    ensures
        reach_within(edges, r, from, to, i),
    decreases j,
{
    if j <= i {
        lemma_reach_monotone(edges, r, from, to, j, i);
    } else if !reach_within(edges, r, from, to, (j - 1) as nat) {
        let mid = choose|mid: int|
            reach_within(edges, r, from, mid, (j - 1) as nat) && #[trigger] step(edges, r, mid, to);
        lemma_reach_fixpoint(edges, r, from, i, (j - 1) as nat, mid);
        assert(reach_within(edges, r, from, to, i + 1));
    } else {
        lemma_reach_fixpoint(edges, r, from, i, (j - 1) as nat, to);
    }
}

/// The nodes reached from `start` along edges of fact `r`.
pub fn closure(graph: &ProgramGraph, start: usize, r: Relation) -> (reached: Vec<bool>)
    requires
        start < graph_nodes(*graph).len(),
    ensures
        reached.len() == graph_nodes(*graph).len(),
        forall|x: int|
            0 <= x < reached.len() ==> #[trigger] reached@[x] == reaches(
                graph_edges(*graph),
                r,
                start as int,
                x,
            ),
{
    let ghost edges = graph_edges(*graph);
    let n = node_count(graph);
    let m = edge_count(graph);
    let mut reached: Vec<bool> = Vec::new();
    let mut i: usize = 0;
    while i < n
        invariant
            i <= n,
            reached.len() == i,
            forall|x: int| 0 <= x < i ==> #[trigger] reached@[x] == (x == start),
        decreases n - i,
    {
        reached.push(i == start);
        i = i + 1;
    }
    let ghost mut rounds: nat = 0;
    loop
        invariant
            edges == graph_edges(*graph),
            n == graph_nodes(*graph).len(),
            m == edges.len(),
            start < n,
            reached.len() == n,
            forall|x: int|
                0 <= x < n ==> #[trigger] reached@[x] == reach_within(
                    edges,
                    r,
                    start as int,
                    x,
                    rounds,
                ),
        decreases n - count_set(reached@),
    {
        let mut next: Vec<bool> = Vec::new();
        let mut i: usize = 0;
        while i < n
            invariant
                i <= n,
                reached.len() == n,
                next.len() == i,
                forall|x: int| 0 <= x < i ==> #[trigger] next@[x] == reached@[x],
            decreases n - i,
        {
            next.push(reached[i]);
            i = i + 1;
        }
        let mut changed = false;
        let mut k: usize = 0;
        while k < m
            invariant
                edges == graph_edges(*graph),
                n == graph_nodes(*graph).len(),
                m == edges.len(),
                k <= m,
                forall|k0: int|
                    0 <= k0 < k ==> (#[trigger] edges[k0]).source < n && edges[k0].target < n,
                reached.len() == n,
                next.len() == n,
                forall|x: int|
                    0 <= x < n ==> #[trigger] next@[x] == (reached@[x] || exists|mid: int|
                        0 <= mid < n && reached@[mid] && exists|k0: int|
                            0 <= k0 < k && (#[trigger] edges[k0]).relation == r && edges[k0].source
                                == mid && edges[k0].target == x),
                changed == exists|x: int| 0 <= x < n && next@[x] && !reached@[x],
            decreases m - k,
        {
            let e = edge_at(graph, k);
            if e.relation == r && reached[e.source] && !next[e.target] {
                next.set(e.target, true);
                changed = true;
            }
            assert forall|x: int|
                0 <= x < n implies #[trigger] next@[x] == (reached@[x] || exists|mid: int|
                    0 <= mid < n && reached@[mid] && exists|k0: int|
                        0 <= k0 < k + 1 && (#[trigger] edges[k0]).relation == r
                            && edges[k0].source == mid && edges[k0].target == x) by {
                if e.relation == r && reached@[e.source as int] && x == e.target {
                    assert(edges[k as int] == e);
                }
            }
            k = k + 1;
        }
        assert forall|x: int| 0 <= x < n implies #[trigger] next@[x] == reach_within(
            edges,
            r,
            start as int,
            x,
            rounds + 1,
        ) by {
            if reach_within(edges, r, start as int, x, rounds + 1) && !reach_within(
                edges,
                r,
                start as int,
                x,
                rounds,
            ) {
                let mid = choose|mid: int|
                    reach_within(edges, r, start as int, mid, rounds) && #[trigger] step(
                        edges,
                        r,
                        mid,
                        x,
                    );
                let k0 = choose|k0: int|
                    0 <= k0 < edges.len() && (#[trigger] edges[k0]).relation == r
                        && edges[k0].source == mid && edges[k0].target == x;
                assert(edges[k0].source < n);
                assert(reached@[mid]);
            }
            if next@[x] && !reached@[x] {
                let mid = choose|mid: int|
                    0 <= mid < n && reached@[mid] && exists|k0: int|
                        0 <= k0 < m && (#[trigger] edges[k0]).relation == r && edges[k0].source
                            == mid && edges[k0].target == x;
                assert(step(edges, r, mid, x));
            }
        }
        if !changed {
            proof {
                assert forall|x: int|
                    #[trigger] reach_within(edges, r, start as int, x, rounds + 1) implies reach_within(
                    edges,
                    r,
                    start as int,
                    x,
                    rounds,
                ) by {
                    if !reach_within(edges, r, start as int, x, rounds) {
                        let mid = choose|mid: int|
                            reach_within(edges, r, start as int, mid, rounds) && #[trigger] step(
                                edges,
                                r,
                                mid,
                                x,
                            );
                        let k0 = choose|k0: int|
                            0 <= k0 < edges.len() && (#[trigger] edges[k0]).relation == r
                                && edges[k0].source == mid && edges[k0].target == x;
                        assert(edges[k0].target < n);
                        assert(next@[x] == reach_within(edges, r, start as int, x, rounds + 1));
                        assert(next@[x] == reached@[x]);
                    }
                }
                assert forall|x: int| 0 <= x < n implies #[trigger] reached@[x] == reaches(
                    edges,
                    r,
                    start as int,
                    x,
                ) by {
                    if reaches(edges, r, start as int, x) {
                        let j = choose|j: nat| #[trigger] reach_within(edges, r, start as int, x, j);
                        lemma_reach_fixpoint(edges, r, start as int, rounds, j, x);
                    }
                }
            }
            return reached;
        }
        proof {
            let x = choose|x: int| 0 <= x < n && next@[x] && !reached@[x];
            assert forall|j: int| 0 <= j < reached@.len() && reached@[j] implies next@[j] by {}
            lemma_count_grows(reached@, next@, x);
            lemma_count_bound(next@);
            rounds = rounds + 1;
        }
        reached = next;
    }
}

/// Whether node `source` mutates node `target`.
pub fn mutates(graph: &ProgramGraph, source: usize, target: usize) -> (r: bool)
    requires
        source < graph_nodes(*graph).len(),
        target < graph_nodes(*graph).len(),
    ensures
        r == mutation(graph_edges(*graph), source as int, target as int),
{
    let ghost edges = graph_edges(*graph);
    let callers = closure(graph, source, Relation::Calls);
    let states = closure(graph, target, Relation::Contains);
    let m = edge_count(graph);
    let mut k: usize = 0;
    while k < m
        invariant
            edges == graph_edges(*graph),
            m == edges.len(),
            k <= m,
            callers.len() == graph_nodes(*graph).len(),
            states.len() == graph_nodes(*graph).len(),
            forall|x: int|
                0 <= x < callers.len() ==> #[trigger] callers@[x] == reaches(
                    edges,
                    Relation::Calls,
                    source as int,
                    x,
                ),
            forall|x: int|
                0 <= x < states.len() ==> #[trigger] states@[x] == reaches(
                    edges,
                    Relation::Contains,
                    target as int,
                    x,
                ),
            forall|k0: int|
                0 <= k0 < k ==> !((#[trigger] edges[k0]).relation == Relation::Writes && reaches(
                    edges,
                    Relation::Calls,
                    source as int,
                    edges[k0].source as int,
                ) && reaches(edges, Relation::Contains, target as int, edges[k0].target as int)),
        decreases m - k,
    {
        let e = edge_at(graph, k);
        if e.relation == Relation::Writes && callers[e.source] && states[e.target] {
            assert(step(edges, Relation::Writes, e.source as int, e.target as int)) by {
                assert(edges[k as int] == e);
            }
            return true;
        }
        k = k + 1;
    }
    assert forall|caller: int, state: int|
        reaches(edges, Relation::Calls, source as int, caller) && reaches(
            edges,
            Relation::Contains,
            target as int,
            state,
        ) implies !step(edges, Relation::Writes, caller, state) by {
        if step(edges, Relation::Writes, caller, state) {
            let k0 = choose|k0: int|
                0 <= k0 < edges.len() && (#[trigger] edges[k0]).relation == Relation::Writes
                    && edges[k0].source == caller && edges[k0].target == state;
        }
    }
    false
}

/// A node that writes state which another node contains, or is, mutates
/// that node.
pub proof fn lemma_writing_mutates(edges: Seq<Edge>, writer: int, state: int, owner: int)
    requires
        step(edges, Relation::Writes, writer, state),
        reaches(edges, Relation::Contains, owner, state),
    ensures
        mutation(edges, writer, owner),
{
    assert(reach_within(edges, Relation::Calls, writer, writer, 0));
    assert(reaches(edges, Relation::Calls, writer, writer));
}

/// A node that calls a node that mutates another mutates it too.
pub proof fn lemma_calls_carry_mutation(edges: Seq<Edge>, caller: int, callee: int, target: int)
    requires
        step(edges, Relation::Calls, caller, callee),
        mutation(edges, callee, target),
    ensures
        mutation(edges, caller, target),
{
    let (writer, state) = choose|writer: int, state: int|
        #![trigger reaches(edges, Relation::Calls, callee, writer), reaches(edges, Relation::Contains, target, state)]
        reaches(edges, Relation::Calls, callee, writer) && reaches(
            edges,
            Relation::Contains,
            target,
            state,
        ) && step(edges, Relation::Writes, writer, state);
    let n = choose|n: nat| #[trigger] reach_within(edges, Relation::Calls, callee, writer, n);
    lemma_reach_prepend(edges, Relation::Calls, caller, callee, writer, n);
    assert(reaches(edges, Relation::Calls, caller, writer));
}

/// A path preceded by one more edge is a path one edge longer.
proof fn lemma_reach_prepend(edges: Seq<Edge>, r: Relation, first: int, from: int, to: int, n: nat)
    requires
        step(edges, r, first, from),
        reach_within(edges, r, from, to, n),
    ensures
        reach_within(edges, r, first, to, n + 1),
    decreases n,
{
    if n == 0 {
        assert(reach_within(edges, r, first, first, 0));
        assert(step(edges, r, first, to));
    } else if reach_within(edges, r, from, to, (n - 1) as nat) {
        lemma_reach_prepend(edges, r, first, from, to, (n - 1) as nat);
    } else {
        let mid = choose|mid: int|
            reach_within(edges, r, from, mid, (n - 1) as nat) && #[trigger] step(edges, r, mid, to);
        lemma_reach_prepend(edges, r, first, from, mid, (n - 1) as nat);
    }
}

} // verus!
