//! Sorting by insertion, with the place of each insertion found by binary
//! search: node keys in the canonical order, exported edges by their fields.
use vstd::prelude::*;
use vstd::relations::sorted_by;

use crate::graph::Relation;
use crate::output::ExportEdge;
use crate::identity::{
    compare_keys, identity_le, identity_leq, identity_order, key_identity,
    lemma_identity_order_antisymmetric, lemma_identity_order_transitive, Identity, NodeKey,
};

verus! {

broadcast use vstd::seq_lib::to_multiset_build, vstd::seq_lib::to_multiset_insert;

/// The identities of the keys taken in the given order.
pub open spec fn ranked(keys: Seq<NodeKey>, order: Seq<usize>) -> Seq<Identity> {
    order.map_values(|j: usize| key_identity(keys[j as int]))
}

/// The identities of all keys, in index order.
pub open spec fn key_identities(keys: Seq<NodeKey>) -> Seq<Identity> {
    keys.map_values(|k: NodeKey| key_identity(k))
}

/// `order` lists each of `0..n` exactly once.
pub open spec fn is_permutation(order: Seq<usize>, n: nat) -> bool {
    &&& order.len() == n
    &&& forall|q: int| 0 <= q < order.len() ==> order[q] < n
    &&& order.no_duplicates()
    &&& forall|j: usize| j < n ==> order.contains(j)
}

/// The indices of `keys`, sorted by identity.
pub fn sort_by_identity(keys: &Vec<NodeKey>) -> (order: Vec<usize>)
    ensures
        is_permutation(order@, keys.len() as nat),
        sorted_by(ranked(keys@, order@), identity_le()),
        ranked(keys@, order@).to_multiset() == key_identities(keys@).to_multiset(),
{
    let n = keys.len();
    let mut order: Vec<usize> = Vec::new();
    let mut i: usize = 0;
    assert(ranked(keys@, order@) =~= key_identities(keys@).take(0));
    while i < n
        invariant
            n == keys.len(),
            i <= n,
            order.len() == i,
            forall|q: int| 0 <= q < order.len() ==> order@[q] < i,
            order@.no_duplicates(),
            forall|j: usize| j < i ==> order@.contains(j),
            sorted_by(ranked(keys@, order@), identity_le()),
            ranked(keys@, order@).to_multiset() == key_identities(keys@).take(i as int).to_multiset(),
        decreases n - i,
    {
        let ghost v = ranked(keys@, order@);
        let ghost x = key_identity(keys@[i as int]);
        let mut lo: usize = 0;
        let mut hi: usize = order.len();
        while lo < hi
            invariant
                n == keys.len(),
                i < n,
                order.len() == i,
                forall|q: int| 0 <= q < order.len() ==> order@[q] < i,
                v == ranked(keys@, order@),
                x == key_identity(keys@[i as int]),
                sorted_by(v, identity_le()),
                lo <= hi <= order.len(),
                forall|q: int| 0 <= q < lo ==> identity_leq(#[trigger] v[q], x),
                forall|q: int| hi <= q < order.len() ==> identity_order(x, #[trigger] v[q]) < 0,
            decreases hi - lo,
        {
            let mid = lo + (hi - lo) / 2;
            let c = compare_keys(&keys[order[mid]], &keys[i]);
            assert(v[mid as int] == key_identity(keys@[order@[mid as int] as int]));
            if c <= 0 {
                assert forall|q: int| 0 <= q < mid + 1 implies identity_leq(#[trigger] v[q], x) by {
                    if q < mid {
                        assert(identity_le()(v[q], v[mid as int]));
                        lemma_identity_order_transitive(v[q], v[mid as int], x);
                    }
                }
                lo = mid + 1;
            } else {
                proof {
                    lemma_identity_order_antisymmetric(v[mid as int], x);
                }
                assert forall|q: int| mid <= q < order.len() implies identity_order(
                    x,
                    #[trigger] v[q],
                ) < 0 by {
                    if q > mid {
                        assert(identity_le()(v[mid as int], v[q]));
                        lemma_identity_order_transitive(x, v[mid as int], v[q]);
                    }
                }
                hi = mid;
            }
        }
        let ghost old_order = order@;
        order.insert(lo, i);
        assert(ranked(keys@, order@) =~= v.insert(lo as int, x));
        assert(key_identities(keys@).take(i + 1) =~= key_identities(keys@).take(i as int).push(x));
        assert forall|a: int, b: int|
            0 <= a < b < order@.len() implies #[trigger] identity_le()(
            ranked(keys@, order@)[a],
            ranked(keys@, order@)[b],
        ) by {
            let w = ranked(keys@, order@);
            if b < lo {
                assert(w[a] == v[a] && w[b] == v[b]);
                assert(identity_le()(v[a], v[b]));
            } else if b == lo {
                assert(w[a] == v[a]);
            } else if a == lo {
                assert(w[b] == v[b - 1]);
                assert(identity_order(x, v[b - 1]) < 0);
            } else if a < lo {
                assert(w[a] == v[a] && w[b] == v[b - 1]);
                assert(identity_le()(v[a], v[b - 1]));
            } else {
                assert(w[a] == v[a - 1] && w[b] == v[b - 1]);
                assert(identity_le()(v[a - 1], v[b - 1]));
            }
        }
        assert forall|j: usize| j < i + 1 implies order@.contains(j) by {
            if j < i {
                assert(old_order.contains(j));
                let p = choose|p: int| 0 <= p < old_order.len() && old_order[p] == j;
                if p < lo {
                    assert(order@[p] == j);
                } else {
                    assert(order@[p + 1] == j);
                }
            } else {
                assert(order@[lo as int] == j);
            }
        }
        assert forall|a: int, b: int|
            0 <= a < order@.len() && 0 <= b < order@.len() && a != b implies order@[a]
            != order@[b] by {
            if a != lo && b != lo {
                let a0 = if a < lo { a } else { a - 1 };
                let b0 = if b < lo { b } else { b - 1 };
                assert(old_order[a0] != old_order[b0]);
            } else if a == lo {
                let b0 = if b < lo { b } else { b - 1 };
                assert(old_order[b0] < i);
            } else {
                let a0 = if a < lo { a } else { a - 1 };
                assert(old_order[a0] < i);
            }
        }
        i = i + 1;
    }
    assert(key_identities(keys@).take(n as int) =~= key_identities(keys@));
    order
}


/// The rank of a fact in declaration order.
pub open spec fn relation_rank(r: Relation) -> int {
    match r {
        Relation::Contains => 0,
        Relation::Calls => 1,
        Relation::Reads => 2,
        Relation::Writes => 3,
    }
}

/// Edges ordered by source, then fact, then target.
pub open spec fn edge_leq(a: ExportEdge, b: ExportEdge) -> bool {
    a.source < b.source || (a.source == b.source && (relation_rank(a.relation) < relation_rank(
        b.relation,
    ) || (a.relation == b.relation && a.target <= b.target)))
}

/// The order of edges as a relation.
pub open spec fn edge_le() -> spec_fn(ExportEdge, ExportEdge) -> bool {
    |a: ExportEdge, b: ExportEdge| edge_leq(a, b)
}

/// The order of edges is a total order.
pub proof fn lemma_edge_total_ordering()
    ensures
        vstd::relations::total_ordering(edge_le()),
{
}

/// The rank of a fact, as a number.
pub fn rank_of_relation(r: Relation) -> (n: u8)
    ensures
        n as int == relation_rank(r),
{
    match r {
        Relation::Contains => 0,
        Relation::Calls => 1,
        Relation::Reads => 2,
        Relation::Writes => 3,
    }
}

/// Whether `a` comes no later than `b` in the order of edges.
pub fn edge_precedes(a: &ExportEdge, b: &ExportEdge) -> (r: bool)
    ensures
        r == edge_leq(*a, *b),
{
    let x = rank_of_relation(a.relation);
    let y = rank_of_relation(b.relation);
    a.source < b.source || (a.source == b.source && (x < y || (x == y && a.target <= b.target)))
}

/// The edges, sorted by source, fact and target.
pub fn sort_edges(edges: Vec<ExportEdge>) -> (sorted: Vec<ExportEdge>)
    ensures
        sorted_by(sorted@, edge_le()),
        sorted@.to_multiset() == edges@.to_multiset(),
{
    let n = edges.len();
    let mut sorted: Vec<ExportEdge> = Vec::new();
    let mut i: usize = 0;
    assert(sorted@ =~= edges@.take(0));
    while i < n
        invariant
            n == edges.len(),
            i <= n,
            sorted.len() == i,
            sorted_by(sorted@, edge_le()),
            sorted@.to_multiset() == edges@.take(i as int).to_multiset(),
        decreases n - i,
    {
        let x = edges[i];
        let mut lo: usize = 0;
        let mut hi: usize = sorted.len();
        while lo < hi
            invariant
                lo <= hi <= sorted.len(),
                sorted_by(sorted@, edge_le()),
                forall|q: int| 0 <= q < lo ==> edge_leq(#[trigger] sorted@[q], x),
                forall|q: int| hi <= q < sorted.len() ==> !edge_leq(#[trigger] sorted@[q], x),
            decreases hi - lo,
        {
            let mid = lo + (hi - lo) / 2;
            if edge_precedes(&sorted[mid], &x) {
                assert forall|q: int| 0 <= q < mid + 1 implies edge_leq(#[trigger] sorted@[q], x) by {
                    if q < mid {
                        assert(edge_le()(sorted@[q], sorted@[mid as int]));
                    }
                }
                lo = mid + 1;
            } else {
                assert forall|q: int| mid <= q < sorted.len() implies !edge_leq(
                    #[trigger] sorted@[q],
                    x,
                ) by {
                    if q > mid {
                        assert(edge_le()(sorted@[mid as int], sorted@[q]));
                    }
                }
                hi = mid;
            }
        }
        let ghost v = sorted@;
        sorted.insert(lo, x);
        assert(edges@.take(i + 1) =~= edges@.take(i as int).push(x));
        assert forall|a: int, b: int|
            0 <= a < b < sorted@.len() implies #[trigger] edge_le()(sorted@[a], sorted@[b]) by {
            if b < lo {
                assert(edge_le()(v[a], v[b]));
            } else if b == lo {
            } else if a == lo {
                assert(!edge_leq(v[b - 1], x));
            } else if a < lo {
                assert(edge_le()(v[a], v[b - 1]));
            } else {
                assert(edge_le()(v[a - 1], v[b - 1]));
            }
        }
        i = i + 1;
    }
    assert(edges@.take(n as int) =~= edges@);
    sorted
}

} // verus!
