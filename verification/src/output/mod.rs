//! The canonical snapshot of a graph, from which every output format is
//! written: files, nodes and edges with deterministic identifiers.
//!
//! Node identifiers are positions in the canonical order of identities (see
//! `identity`), file identifiers are positions in the ascending list of
//! distinct file URIs, and edges are listed by source, fact and target.
use vstd::prelude::*;
use vstd::relations::sorted_by;

use crate::error::PlexusError;
use crate::graph::{
    edge_at, edge_count, graph_edges, graph_nodes, node_at, node_count, Edge, Node, NodeKind,
    ProgramGraph, Range, Relation,
};
use crate::identity::{
    compare_keys, identity_le, identity_order, key_identity, lemma_identity_order_antisymmetric,
    lemma_identity_order_equal, lemma_identity_order_transitive, lemma_identity_total_ordering,
    node_identity, node_key, Identity, NodeKey,
};
use crate::seqs::{distinct_runs, first_where, lemma_first_where, lemma_first_where_is, lemma_index_of_unique};
use crate::sorting::{
    edge_le, key_identities, lemma_edge_total_ordering, ranked, sort_by_identity, sort_edges,
};
use crate::text::{digits, push_digits, push_str, chars_order, compare_chars, lemma_chars_order_antisymmetric, lemma_chars_order_equal, lemma_chars_order_transitive};

pub mod compact;
pub mod json;

verus! {

/// A node as the outputs write it.
#[derive(Debug)]
pub struct ExportNode {
    pub id: usize,
    pub kind: NodeKind,
    pub name: String,
    pub file: usize,
    pub range: Range,
}

/// An edge as the outputs write it, between node identifiers.
#[derive(Clone, Copy, Debug, PartialEq, Eq, Structural)]
pub struct ExportEdge {
    pub source: usize,
    pub relation: Relation,
    pub target: usize,
}

/// Files, nodes and edges of a graph, numbered canonically.
#[derive(Debug)]
pub struct Snapshot {
    pub files: Vec<String>,
    pub nodes: Vec<ExportNode>,
    pub edges: Vec<ExportEdge>,
}

/// The identities of the nodes of a graph, in index order.
pub open spec fn identities(g: ProgramGraph) -> Seq<Identity> {
    graph_nodes(g).map_values(|n: Node| node_identity(n))
}

/// The identities of the nodes of a graph, in the canonical order.
pub open spec fn canonical_identities(g: ProgramGraph) -> Seq<Identity> {
    identities(g).sort_by(identity_le())
}

/// The distinct file URIs of a graph's nodes, ascending.
pub open spec fn canonical_files(g: ProgramGraph) -> Seq<Seq<char>> {
    distinct_runs(canonical_identities(g).map_values(|i: Identity| i.0))
}

/// The identifier of the node with index `j`.
pub open spec fn canonical_index(g: ProgramGraph, j: int) -> int {
    canonical_identities(g).index_of(identities(g)[j])
}

/// An edge of the graph between canonical identifiers.
pub open spec fn export_edge(g: ProgramGraph, e: Edge) -> ExportEdge {
    ExportEdge {
        source: canonical_index(g, e.source as int) as usize,
        relation: e.relation,
        target: canonical_index(g, e.target as int) as usize,
    }
}

/// The edges of a graph between canonical identifiers, in order.
pub open spec fn canonical_edges(g: ProgramGraph) -> Seq<ExportEdge> {
    graph_edges(g).map_values(|e: Edge| export_edge(g, e)).sort_by(edge_le())
}

/// Node `n` is the export of the node with identity `id` at position `p`.
pub open spec fn exports_node(n: ExportNode, p: int, id: Identity, files: Seq<Seq<char>>) -> bool {
    &&& n.id == p
    &&& n.kind == id.3
    &&& n.name@ == id.4
    &&& n.range == (Range { start: id.1, end: id.2 })
    &&& n.file == files.index_of(id.0)
    &&& n.file < files.len()
}

/// The URIs of a list of files.
pub open spec fn file_uris(files: Seq<String>) -> Seq<Seq<char>> {
    files.map_values(|f: String| f@)
}

/// `s` holds the canonical files, nodes and edges of `g`.
pub open spec fn exports(g: ProgramGraph, s: Snapshot) -> bool {
    &&& file_uris(s.files@) == canonical_files(g)
    &&& s.nodes.len() == canonical_identities(g).len()
    &&& forall|p: int|
        0 <= p < s.nodes.len() ==> exports_node(
            #[trigger] s.nodes@[p],
            p,
            canonical_identities(g)[p],
            canonical_files(g),
        )
    &&& s.edges@ == canonical_edges(g)
}

/// An identity repeats at positions `p` and `p + 1`.
pub open spec fn repeats_at(c: Seq<Identity>) -> spec_fn(int) -> bool {
    |p: int| c[p] == c[p + 1]
}

/// The first position in a sorted list of identities at which one repeats.
pub open spec fn first_repeat(c: Seq<Identity>) -> Option<int> {
    if c.len() == 0 {
        None
    } else {
        first_where(repeats_at(c), (c.len() - 1) as nat)
    }
}

/// `e` reports the first identity that two nodes of `g` share.
pub open spec fn identity_error(g: ProgramGraph, e: PlexusError) -> bool {
    let c = canonical_identities(g);
    match first_repeat(c) {
        Some(p) => match e {
            PlexusError::NoStableIdentity { name, kind, uri, range } => {
                &&& name@ == c[p].4
                &&& kind == c[p].3
                &&& uri@ == c[p].0
                &&& range == (Range { start: c[p].1, end: c[p].2 })
            },
            _ => false,
        },
        None => false,
    }
}

/// Kind and file of each node of a snapshot, by identifier.
pub open spec fn placements(nodes: Seq<ExportNode>) -> Seq<(NodeKind, int)> {
    nodes.map_values(|n: ExportNode| (n.kind, n.file as int))
}

/// Kind and file of each node of the canonical snapshot of `g`.
pub open spec fn canonical_placements(g: ProgramGraph) -> Seq<(NodeKind, int)> {
    canonical_identities(g).map_values(|i: Identity| (i.3, canonical_files(g).index_of(i.0)))
}

/// The file node last seen for file `f` among `nodes`.
pub open spec fn file_node_of(nodes: Seq<(NodeKind, int)>, f: int) -> Option<int>
    decreases nodes.len(),
{
    if nodes.len() == 0 {
        None
    } else if nodes.last().0 == NodeKind::File && nodes.last().1 == f {
        Some(nodes.len() - 1)
    } else {
        file_node_of(nodes.drop_last(), f)
    }
}

/// Node `p` is a file node of a file that already has one.
pub open spec fn file_clash(nodes: Seq<(NodeKind, int)>, p: int) -> bool {
    0 <= p < nodes.len() && nodes[p].0 == NodeKind::File && file_node_of(nodes.take(p), nodes[p].1)
        is Some
}

/// The containment parent last recorded for node `c` among `edges`.
pub open spec fn parent_of(edges: Seq<ExportEdge>, c: int) -> Option<int>
    decreases edges.len(),
{
    if edges.len() == 0 {
        None
    } else if edges.last().relation == Relation::Contains && edges.last().target == c {
        Some(edges.last().source as int)
    } else {
        parent_of(edges.drop_last(), c)
    }
}

/// What is wrong with edge `k`, given the edges before it.
pub open spec fn edge_fault(nodes: Seq<(NodeKind, int)>, edges: Seq<ExportEdge>, k: int) -> Option<
    PlexusError,
> {
    let e = edges[k];
    if e.relation != Relation::Contains {
        None
    } else if nodes[e.source as int].1 != nodes[e.target as int].1 {
        Some(PlexusError::CrossFileContainment { source: e.source, target: e.target })
    } else if nodes[e.target as int].0 == NodeKind::File {
        Some(PlexusError::FileNodeHasParent { node: e.target })
    } else {
        match parent_of(edges.take(k), e.target as int) {
            Some(p) => if p != e.source {
                Some(
                    PlexusError::MultipleParents {
                        node: e.target,
                        first: p as usize,
                        second: e.source,
                    },
                )
            } else {
                None
            },
            None => None,
        }
    }
}

/// Following containment parents from `c`, a node without a parent is
/// reached within `steps` steps.
pub open spec fn chain_ends(edges: Seq<ExportEdge>, c: int, steps: nat) -> bool
    decreases steps,
{
    match parent_of(edges, c) {
        None => true,
        Some(p) => steps > 0 && chain_ends(edges, p, (steps - 1) as nat),
    }
}

/// Node `p` is a second file node of its file.
pub open spec fn clash_at(nodes: Seq<(NodeKind, int)>) -> spec_fn(int) -> bool {
    |p: int| file_clash(nodes, p)
}

/// Edge `k` is faulty.
pub open spec fn fault_at(nodes: Seq<(NodeKind, int)>, edges: Seq<ExportEdge>) -> spec_fn(int) -> bool {
    |k: int| edge_fault(nodes, edges, k) is Some
}

/// The containment chain above node `c` does not end.
pub open spec fn unending_at(nodes: Seq<(NodeKind, int)>, edges: Seq<ExportEdge>) -> spec_fn(int) -> bool {
    |c: int| !chain_ends(edges, c, nodes.len())
}

/// What the containment check says of a snapshot: the first file with two
/// file nodes, else the first faulty containment edge, else the first node
/// whose containment chain does not end, else nothing.
pub open spec fn containment_verdict(nodes: Seq<(NodeKind, int)>, edges: Seq<ExportEdge>) -> Result<
    (),
    PlexusError,
> {
    match first_where(clash_at(nodes), nodes.len()) {
        Some(p) => Err(
            PlexusError::MultipleFileNodes {
                file: nodes[p].1 as usize,
                previous: file_node_of(nodes.take(p), nodes[p].1).unwrap() as usize,
                node: p as usize,
            },
        ),
        None => match first_where(fault_at(nodes, edges), edges.len()) {
            Some(k) => Err(edge_fault(nodes, edges, k).unwrap()),
            None => match first_where(unending_at(nodes, edges), nodes.len()) {
                Some(c) => Err(PlexusError::CyclicContainment { node: c as usize }),
                None => Ok(()),
            },
        },
    }
}

/// The containment edges of a list hold together: each joins two nodes of
/// one file and does not end at a file node, and no node has two different
/// containment parents.
pub open spec fn containment_holds(nodes: Seq<(NodeKind, int)>, edges: Seq<ExportEdge>) -> bool {
    &&& forall|x: ExportEdge|
        x.relation == Relation::Contains && #[trigger] edges.contains(x) ==> nodes[x.source as int].1
            == nodes[x.target as int].1 && nodes[x.target as int].0 != NodeKind::File
    &&& forall|x: ExportEdge, y: ExportEdge|
        x.relation == Relation::Contains && y.relation == Relation::Contains && #[trigger] edges.contains(x)
            && #[trigger] edges.contains(y) && x.target == y.target ==> x.source == y.source
}

/// Two lists hold the same containment edges, whatever else they hold and
/// in whatever order, however often.
pub open spec fn same_containment(a: Seq<ExportEdge>, b: Seq<ExportEdge>) -> bool {
    forall|x: ExportEdge|
        #![trigger a.contains(x)]
        #![trigger b.contains(x)]
        x.relation == Relation::Contains ==> (a.contains(x) <==> b.contains(x))
}

/// The parent that `parent_of` finds comes from a containment edge into the
/// node, and there is none where it finds none.
proof fn lemma_parent_source(edges: Seq<ExportEdge>, c: int)
    ensures
        parent_of(edges, c) matches Some(p) ==> exists|k: int|
            0 <= k < edges.len() && (#[trigger] edges[k]).relation == Relation::Contains && edges[k].target == c
                && edges[k].source == p,
        parent_of(edges, c) is None ==> forall|k: int|
            0 <= k < edges.len() ==> !((#[trigger] edges[k]).relation == Relation::Contains && edges[k].target == c),
    decreases edges.len(),
{
    if edges.len() > 0 {
        let rest = edges.drop_last();
        lemma_parent_source(rest, c);
        if !(edges.last().relation == Relation::Contains && edges.last().target == c) {
            if let Some(p) = parent_of(rest, c) {
                let k = choose|k: int|
                    0 <= k < rest.len() && (#[trigger] rest[k]).relation == Relation::Contains && rest[k].target == c
                        && rest[k].source == p;
                assert(edges[k] == rest[k]);
            } else {
                assert forall|k: int| 0 <= k < edges.len() implies !((#[trigger] edges[k]).relation
                    == Relation::Contains && edges[k].target == c) by {
                    if k < rest.len() {
                        assert(edges[k] == rest[k]);
                    }
                }
            }
        } else {
            assert(edges[edges.len() - 1] == edges.last());
        }
    }
}

/// Without a faulty edge, the containment edges hold together.
proof fn lemma_no_fault_holds(nodes: Seq<(NodeKind, int)>, edges: Seq<ExportEdge>)
    requires
        forall|k: int| 0 <= k < edges.len() ==> #[trigger] edge_fault(nodes, edges, k) is None,
    ensures
        containment_holds(nodes, edges),
    decreases edges.len(),
{
    if edges.len() > 0 {
        let rest = edges.drop_last();
        let z = edges.last();
        let n = edges.len() - 1;
        assert forall|k: int| 0 <= k < rest.len() implies #[trigger] edge_fault(nodes, rest, k) is None by {
            assert(rest.take(k) =~= edges.take(k));
            assert(rest[k] == edges[k]);
            assert(edge_fault(nodes, edges, k) is None);
        }
        lemma_no_fault_holds(nodes, rest);
        assert(edge_fault(nodes, edges, n) is None);
        assert(edges.take(n) =~= rest);
        assert(edges[n] == z);
        assert forall|x: ExportEdge| x.relation == Relation::Contains && #[trigger] edges.contains(x) implies nodes[
            x.source as int].1 == nodes[x.target as int].1 && nodes[x.target as int].0 != NodeKind::File by {
            let k = choose|k: int| 0 <= k < edges.len() && edges[k] == x;
            if k < n {
                assert(rest[k] == x);
                assert(rest.contains(x));
            }
        }
        assert forall|x: ExportEdge, y: ExportEdge|
            x.relation == Relation::Contains && y.relation == Relation::Contains && #[trigger] edges.contains(x)
                && #[trigger] edges.contains(y) && x.target == y.target implies x.source == y.source by {
            let i = choose|i: int| 0 <= i < edges.len() && edges[i] == x;
            let j = choose|j: int| 0 <= j < edges.len() && edges[j] == y;
            if i < n && j < n {
                assert(rest[i] == x && rest[j] == y);
                assert(rest.contains(x) && rest.contains(y));
            } else if i < n || j < n {
                // One of them is the last edge; the other is an earlier one.
                let (early, k) = if i < n { (x, i) } else { (y, j) };
                assert(rest[k] == early);
                lemma_parent_source(rest, z.target as int);
                assert(rest[k].relation == Relation::Contains && rest[k].target == z.target);
                let p = parent_of(rest, z.target as int).unwrap();
                let w = choose|w: int|
                    0 <= w < rest.len() && (#[trigger] rest[w]).relation == Relation::Contains && rest[w].target
                        == z.target && rest[w].source == p;
                assert(rest.contains(rest[w]) && rest.contains(early));
                assert(rest[w].source == early.source);
            }
        }
    }
}

/// Where the containment edges hold together, no edge is faulty.
proof fn lemma_holds_no_fault(nodes: Seq<(NodeKind, int)>, edges: Seq<ExportEdge>)
    requires
        containment_holds(nodes, edges),
    ensures
        forall|k: int| 0 <= k < edges.len() ==> #[trigger] edge_fault(nodes, edges, k) is None,
{
    assert forall|k: int| 0 <= k < edges.len() implies #[trigger] edge_fault(nodes, edges, k) is None by {
        let e = edges[k];
        assert(edges.contains(e));
        if e.relation == Relation::Contains {
            let before = edges.take(k);
            lemma_parent_source(before, e.target as int);
            if let Some(p) = parent_of(before, e.target as int) {
                let w = choose|w: int|
                    0 <= w < before.len() && (#[trigger] before[w]).relation == Relation::Contains && before[w].target
                        == e.target && before[w].source == p;
                assert(before[w] == edges[w]);
                assert(edges.contains(edges[w]));
            }
        }
    }
}

/// Holding together depends only on the containment edges.
proof fn lemma_holds_same(nodes: Seq<(NodeKind, int)>, a: Seq<ExportEdge>, b: Seq<ExportEdge>)
    requires
        same_containment(a, b),
        containment_holds(nodes, a),
    ensures
        containment_holds(nodes, b),
{
    assert forall|x: ExportEdge| x.relation == Relation::Contains && #[trigger] b.contains(x) implies nodes[
        x.source as int].1 == nodes[x.target as int].1 && nodes[x.target as int].0 != NodeKind::File by {
        assert(a.contains(x));
    }
    assert forall|x: ExportEdge, y: ExportEdge|
        x.relation == Relation::Contains && y.relation == Relation::Contains && #[trigger] b.contains(x)
            && #[trigger] b.contains(y) && x.target == y.target implies x.source == y.source by {
        assert(a.contains(x) && a.contains(y));
    }
}

/// Where the containment edges hold together in both lists, both find the
/// same parent for every node.
proof fn lemma_parents_agree(nodes: Seq<(NodeKind, int)>, a: Seq<ExportEdge>, b: Seq<ExportEdge>, c: int)
    requires
        same_containment(a, b),
        containment_holds(nodes, a),
        containment_holds(nodes, b),
    ensures
        parent_of(a, c) == parent_of(b, c),
{
    lemma_parent_source(a, c);
    lemma_parent_source(b, c);
    if let Some(p) = parent_of(a, c) {
        let k = choose|k: int|
            0 <= k < a.len() && (#[trigger] a[k]).relation == Relation::Contains && a[k].target == c && a[k].source == p;
        assert(a.contains(a[k]));
        assert(b.contains(a[k]));
        let j = choose|j: int| 0 <= j < b.len() && b[j] == a[k];
        assert(b[j].relation == Relation::Contains && b[j].target == c);
        let q = parent_of(b, c).unwrap();
        let i = choose|i: int|
            0 <= i < b.len() && (#[trigger] b[i]).relation == Relation::Contains && b[i].target == c && b[i].source == q;
        assert(b.contains(b[i]));
    } else if let Some(q) = parent_of(b, c) {
        let k = choose|k: int|
            0 <= k < b.len() && (#[trigger] b[k]).relation == Relation::Contains && b[k].target == c && b[k].source == q;
        assert(b.contains(b[k]));
        assert(a.contains(b[k]));
        let j = choose|j: int| 0 <= j < a.len() && a[j] == b[k];
        assert(a[j].relation == Relation::Contains && a[j].target == c);
    }
}

/// Chains of parents that agree end alike.
proof fn lemma_chains_agree(a: Seq<ExportEdge>, b: Seq<ExportEdge>, c: int, steps: nat)
    requires
        forall|d: int| #[trigger] parent_of(a, d) == parent_of(b, d),
    ensures
        chain_ends(a, c, steps) == chain_ends(b, c, steps),
    decreases steps,
{
    assert(parent_of(a, c) == parent_of(b, c));
    if let Some(p) = parent_of(a, c) {
        if steps > 0 {
            lemma_chains_agree(a, b, p, (steps - 1) as nat);
        }
    }
}

/// Whether the containment check passes depends only on which containment
/// edges there are: edges of other facts, repeated containment edges and
/// the order of the edges change nothing.
pub proof fn lemma_verdict_containment_only(nodes: Seq<(NodeKind, int)>, a: Seq<ExportEdge>, b: Seq<ExportEdge>)
    requires
        same_containment(a, b),
    ensures
        containment_verdict(nodes, a) is Ok <==> containment_verdict(nodes, b) is Ok,
{
    lemma_first_where(fault_at(nodes, a), a.len());
    lemma_first_where(fault_at(nodes, b), b.len());
    lemma_first_where(unending_at(nodes, a), nodes.len());
    lemma_first_where(unending_at(nodes, b), nodes.len());
    let a_sound = first_where(fault_at(nodes, a), a.len()) is None;
    let b_sound = first_where(fault_at(nodes, b), b.len()) is None;
    if a_sound {
        assert forall|k: int| 0 <= k < a.len() implies #[trigger] edge_fault(nodes, a, k) is None by {
            assert(!fault_at(nodes, a)(k));
        }
        lemma_no_fault_holds(nodes, a);
        lemma_holds_same(nodes, a, b);
        lemma_holds_no_fault(nodes, b);
        assert forall|k: int| 0 <= k < b.len() implies !#[trigger] fault_at(nodes, b)(k) by {
            assert(edge_fault(nodes, b, k) is None);
        }
    }
    if b_sound {
        assert forall|k: int| 0 <= k < b.len() implies #[trigger] edge_fault(nodes, b, k) is None by {
            assert(!fault_at(nodes, b)(k));
        }
        lemma_no_fault_holds(nodes, b);
        assert(same_containment(b, a));
        lemma_holds_same(nodes, b, a);
        lemma_holds_no_fault(nodes, a);
        assert forall|k: int| 0 <= k < a.len() implies !#[trigger] fault_at(nodes, a)(k) by {
            assert(edge_fault(nodes, a, k) is None);
        }
    }
    if a_sound && b_sound {
        assert forall|d: int| #[trigger] parent_of(a, d) == parent_of(b, d) by {
            lemma_parents_agree(nodes, a, b, d);
        }
        assert forall|c: int| #[trigger] unending_at(nodes, a)(c) == unending_at(nodes, b)(c) by {
            lemma_chains_agree(a, b, c, nodes.len());
        }
        if first_where(unending_at(nodes, a), nodes.len()) is None {
            assert forall|c: int| 0 <= c < nodes.len() implies !#[trigger] unending_at(nodes, b)(c) by {
                assert(!unending_at(nodes, a)(c));
            }
        }
        if first_where(unending_at(nodes, b), nodes.len()) is None {
            assert forall|c: int| 0 <= c < nodes.len() implies !#[trigger] unending_at(nodes, a)(c) by {
                assert(!unending_at(nodes, b)(c));
            }
        }
    }
}

/// A snapshot whose identifiers fit together: node `p` has identifier `p`
/// and a file of the list, edges join nodes and come sorted.
pub open spec fn well_formed(s: Snapshot) -> bool {
    &&& forall|p: int|
        0 <= p < s.nodes.len() ==> (#[trigger] s.nodes@[p]).id == p && s.nodes@[p].file < s.files.len()
    &&& edges_within(placements(s.nodes@), s.edges@)
    &&& sorted_by(s.edges@, edge_le())
}

/// Every edge of a snapshot joins two of its nodes.
pub open spec fn edges_within(nodes: Seq<(NodeKind, int)>, edges: Seq<ExportEdge>) -> bool {
    forall|k: int|
        0 <= k < edges.len() ==> (#[trigger] edges[k]).source < nodes.len() && edges[k].target
            < nodes.len()
}


/// In a sorted list of identities, if no identity repeats at adjacent
/// positions, none repeats at all.
proof fn lemma_sorted_adjacent_distinct(c: Seq<Identity>)
    requires
        sorted_by(c, identity_le()),
        forall|p: int| 0 <= p < c.len() - 1 ==> #[trigger] c[p] != c[p + 1],
    ensures
        c.no_duplicates(),
        forall|a: int, b: int| 0 <= a < b < c.len() ==> identity_order(c[a], c[b]) < 0,
{
    assert forall|a: int, b: int| 0 <= a < b < c.len() implies identity_order(c[a], c[b]) < 0 by {
        assert(identity_le()(c[a], c[b - 1]) || a == b - 1);
        lemma_identity_order_equal(c[b - 1], c[b]);
        assert(identity_le()(c[b - 1], c[b]));
        if a < b - 1 {
            lemma_identity_order_transitive(c[a], c[b - 1], c[b]);
        }
    }
    assert forall|a: int, b: int| 0 <= a < c.len() && 0 <= b < c.len() && a != b implies c[a]
        != c[b] by {
        if a < b {
            lemma_identity_order_equal(c[a], c[b]);
        } else {
            lemma_identity_order_equal(c[b], c[a]);
        }
    }
}

/// The files of the canonical order: each URI where it first occurs.
proof fn lemma_distinct_runs_step(u: Seq<Seq<char>>, p: int)
    requires
        0 <= p < u.len(),
    ensures
        distinct_runs(u.take(p + 1)) == if p >= 1 && u[p - 1] == u[p] {
            distinct_runs(u.take(p))
        } else {
            distinct_runs(u.take(p)).push(u[p])
        },
{
    assert(u.take(p + 1).drop_last() =~= u.take(p));
}

/// The files, nodes and edges of `graph` in canonical order, or the first
/// identity that two of its nodes share.
pub fn export_graph(graph: &ProgramGraph) -> (r: Result<Snapshot, PlexusError>)
    ensures
        match r {
            Ok(s) => {
                &&& canonical_identities(*graph).no_duplicates()
                &&& exports(*graph, s)
                &&& placements(s.nodes@) == canonical_placements(*graph)
                &&& well_formed(s)
            },
            Err(e) => !canonical_identities(*graph).no_duplicates() && identity_error(*graph, e),
        },
{
    let ghost g = *graph;
    let ghost ids = identities(g);
    let ghost c = canonical_identities(g);
    let n = node_count(graph);
    let mut keys: Vec<NodeKey> = Vec::new();
    let mut i: usize = 0;
    while i < n
        invariant
            n == graph_nodes(g).len(),
            *graph == g,
            i <= n,
            ids == identities(g),
            key_identities(keys@) == ids.take(i as int),
        decreases n - i,
    {
        let node = node_at(graph, i);
        let key = node_key(node);
        assert(ids[i as int] == node_identity(graph_nodes(g)[i as int]));
        assert(ids.take(i + 1) =~= ids.take(i as int).push(ids[i as int]));
        keys.push(key);
        assert(key_identities(keys@) =~= ids.take(i + 1));
        i = i + 1;
    }
    assert(ids.take(n as int) =~= ids);
    let order = sort_by_identity(&keys);
    proof {
        lemma_identity_total_ordering();
        ids.lemma_sort_by_ensures(identity_le());
        vstd::seq_lib::lemma_sorted_unique(ranked(keys@, order@), c, identity_le());
    }
    assert(ranked(keys@, order@) == c);
    assert(c.len() == n);
    // An identity that repeats is reported at its first position.
    if n > 0 {
        let mut p: usize = 0;
        while p + 1 < n
            invariant
                n == keys.len(),
                n == order.len(),
                n > 0,
                p + 1 <= n,
                *graph == g,
                n == graph_nodes(g).len(),
                ids == identities(g),
                key_identities(keys@) == ids,
                c == canonical_identities(g),
                ranked(keys@, order@) == c,
                forall|q: int| 0 <= q < order.len() ==> order@[q] < n,
                forall|q: int| 0 <= q < p ==> #[trigger] c[q] != c[q + 1],
            decreases n - p,
        {
            let a = order[p];
            let b = order[p + 1];
            assert(c[p as int] == key_identity(keys@[a as int]));
            assert(c[p + 1] == key_identity(keys@[b as int]));
            if compare_keys(&keys[a], &keys[b]) == 0 {
                proof {
                    lemma_identity_order_equal(c[p as int], c[p + 1]);
                    lemma_first_where_is(repeats_at(c), (c.len() - 1) as nat, p as int);
                    let dup = p as int;
                    assert(!c.no_duplicates()) by {
                        assert(c[dup] == c[dup + 1]);
                    }
                }
                let node = node_at(graph, a);
                assert(ids[a as int] == node_identity(*node));
                assert(key_identities(keys@)[a as int] == key_identity(keys@[a as int]));
                assert(c[p as int] == node_identity(*node));
                assert(first_repeat(c) == Some(p as int));
                let name = node.name.clone();
                let uri = node.location.uri.clone();
                assert(name@ == node.name@);
                assert(uri@ == node.location.uri@);
                let e = PlexusError::NoStableIdentity { name, kind: node.kind, uri, range: node.location.range };
                assert(node.location.range == (Range { start: c[p as int].1, end: c[p as int].2 }));
                assert(c == canonical_identities(g));
                assert(e matches PlexusError::NoStableIdentity { .. });
                assert(e->name@ == c[p as int].4);
                assert(e->kind == c[p as int].3);
                assert(e->NoStableIdentity_uri@ == c[p as int].0);
                assert(e->range == (Range { start: c[p as int].1, end: c[p as int].2 }));
                assert(identity_error(g, e));
                return Err(e);
            }
            proof {
                lemma_identity_order_equal(c[p as int], c[p + 1]);
            }
            p = p + 1;
        }
    }
    proof {
        lemma_sort_sorted(ids);
        lemma_sorted_adjacent_distinct(c);
    }
    // Files: each URI where it first occurs in the canonical order.
    let ghost uris = c.map_values(|id: Identity| id.0);
    let mut files: Vec<String> = Vec::new();
    let mut nodes: Vec<ExportNode> = Vec::new();
    let mut p: usize = 0;
    while p < n
        invariant
            n == keys.len(),
            n == order.len(),
            n == c.len(),
            *graph == g,
            n == graph_nodes(g).len(),
            ids == identities(g),
            key_identities(keys@) == ids,
            ranked(keys@, order@) == c,
            uris == c.map_values(|id: Identity| id.0),
            forall|q: int| 0 <= q < order.len() ==> order@[q] < n,
            sorted_by(c, identity_le()),
            forall|a: int, b: int| 0 <= a < b < c.len() ==> identity_order(c[a], c[b]) < 0,
            p <= n,
            file_uris(files@) == distinct_runs(uris.take(p as int)),
            p > 0 ==> files.len() > 0 && file_uris(files@).last() == uris[p - 1],
            forall|a: int, b: int|
                0 <= a < b < files.len() ==> chars_order(files@[a]@, files@[b]@) < 0,
            nodes.len() == p,
            forall|q: int|
                0 <= q < p ==> {
                    &&& (#[trigger] nodes@[q]).id == q
                    &&& nodes@[q].kind == c[q].3
                    &&& nodes@[q].name@ == c[q].4
                    &&& nodes@[q].range == (Range { start: c[q].1, end: c[q].2 })
                    &&& nodes@[q].file < files.len()
                    &&& files@[nodes@[q].file as int]@ == c[q].0
                },
        decreases n - p,
    {
        let j = order[p];
        proof {
            lemma_distinct_runs_step(uris, p as int);
        }
        assert(c[p as int] == key_identity(keys@[j as int]));
        let fresh = if p == 0 {
            true
        } else {
            let prev = order[p - 1];
            assert(c[p - 1] == key_identity(keys@[prev as int]));
            compare_chars(&keys[prev].uri, &keys[j].uri) != 0
        };
        let node = node_at(graph, j);
        assert(ids[j as int] == node_identity(*node));
        assert(key_identities(keys@)[j as int] == key_identity(keys@[j as int]));
        assert(node_identity(*node) == c[p as int]);
        assert(uris[p as int] == node.location.uri@);
        let ghost old_files = files@;
        if fresh {
            proof {
                if p > 0 {
                    lemma_chars_order_equal(uris[p - 1], uris[p as int]);
                    lemma_identity_order_antisymmetric(c[p - 1], c[p as int]);
                    lemma_chars_order_antisymmetric(uris[p - 1], uris[p as int]);
                    assert(identity_le()(c[p - 1], c[p as int]));
                    assert(chars_order(uris[p - 1], uris[p as int]) < 0);
                    assert forall|a: int| 0 <= a < files.len() implies chars_order(
                        files@[a]@,
                        uris[p as int],
                    ) < 0 by {
                        if a < files.len() - 1 {
                            assert(file_uris(files@)[a] == files@[a]@);
                            lemma_chars_order_transitive(files@[a]@, uris[p - 1], uris[p as int]);
                        }
                    }
                }
            }
            files.push(node.location.uri.clone());
            assert(file_uris(files@) =~= distinct_runs(uris.take(p + 1)));
        } else {
            proof {
                lemma_chars_order_equal(uris[p - 1], uris[p as int]);
            }
        }
        assert(file_uris(files@).last() == uris[p as int]);
        assert forall|q: int| 0 <= q < old_files.len() implies files@[q] == old_files[q] by {}
        let file = files.len() - 1;
        assert(files@[file as int]@ == file_uris(files@)[file as int]);
        nodes.push(
            ExportNode {
                id: p,
                kind: node.kind,
                name: node.name.clone(),
                file,
                range: node.location.range,
            },
        );
        p = p + 1;
    }
    assert(uris.take(n as int) =~= uris);
    proof {
        assert(file_uris(files@).no_duplicates()) by {
            assert forall|a: int, b: int|
                0 <= a < files.len() && 0 <= b < files.len() && a != b implies file_uris(
                files@,
            )[a] != file_uris(files@)[b] by {
                if a < b {
                    lemma_chars_order_equal(files@[a]@, files@[b]@);
                } else {
                    lemma_chars_order_equal(files@[b]@, files@[a]@);
                }
            }
        }
        assert forall|q: int| 0 <= q < n implies nodes@[q].file == file_uris(files@).index_of(
            #[trigger] c[q].0,
        ) by {
            lemma_index_of_unique(file_uris(files@), nodes@[q].file as int);
        }
    }
    // Identifiers: the canonical position of each node index.
    let mut positions: Vec<usize> = Vec::new();
    let mut i: usize = 0;
    while i < n
        invariant
            i <= n,
            positions.len() == i,
        decreases n - i,
    {
        positions.push(0);
        i = i + 1;
    }
    let mut p: usize = 0;
    while p < n
        invariant
            n == order.len(),
            positions.len() == n,
            p <= n,
            forall|q: int| 0 <= q < order.len() ==> order@[q] < n,
            order@.no_duplicates(),
            forall|q: int| 0 <= q < p ==> positions@[#[trigger] order@[q] as int] == q,
        decreases n - p,
    {
        let j = order[p];
        positions.set(j, p);
        assert forall|q: int| 0 <= q < p + 1 implies positions@[#[trigger] order@[q] as int] == q by {
            if q < p {
                assert(order@[q] != order@[p as int]);
            }
        }
        p = p + 1;
    }
    proof {
        assert forall|j: int| #![trigger positions@[j]] 0 <= j < n implies positions@[j] == canonical_index(g, j) && positions@[j] < n by {
            assert(order@.contains(j as usize));
            let q = choose|q: int| 0 <= q < order.len() && order@[q] == j as usize;
            assert(c[q] == key_identity(keys@[j]));
            assert(positions@[j] == q);
            assert(key_identities(keys@)[j] == key_identity(keys@[j]));
            lemma_index_of_unique(c, q);
        }
    }
    assert(forall|j: int| 0 <= j < n ==> positions@[j] < n);
    // Edges between identifiers, sorted.
    let m = edge_count(graph);
    let mut exported: Vec<ExportEdge> = Vec::new();
    let mut k: usize = 0;
    while k < m
        invariant
            *graph == g,
            m == graph_edges(g).len(),
            n == graph_nodes(g).len(),
            positions.len() == n,
            forall|j: int| 0 <= j < n ==> positions@[j] == canonical_index(g, j),
            forall|j: int| 0 <= j < n ==> positions@[j] < n,
            k <= m,
            forall|k0: int|
                0 <= k0 < k ==> (#[trigger] graph_edges(g)[k0]).source < n && graph_edges(g)[k0].target < n,
            exported@ == graph_edges(g).take(k as int).map_values(|e: Edge| export_edge(g, e)),
        decreases m - k,
    {
        let e = edge_at(graph, k);
        exported.push(
            ExportEdge {
                source: positions[e.source],
                relation: e.relation,
                target: positions[e.target],
            },
        );
        assert(graph_edges(g).take(k + 1) =~= graph_edges(g).take(k as int).push(e));
        assert(exported@ =~= graph_edges(g).take(k + 1).map_values(|e: Edge| export_edge(g, e)));
        k = k + 1;
    }
    assert(graph_edges(g).take(m as int) =~= graph_edges(g));
    let ghost mapped = exported@;
    let edges = sort_edges(exported);
    proof {
        broadcast use vstd::seq_lib::group_to_multiset_ensures;

        lemma_edge_total_ordering();
        mapped.lemma_sort_by_ensures(edge_le());
        assert(sorted_by(edges@, edge_le()));
        vstd::seq_lib::lemma_sorted_unique(edges@, mapped.sort_by(edge_le()), edge_le());
        assert forall|k: int| 0 <= k < edges.len() implies (#[trigger] edges@[k]).source < n
            && edges@[k].target < n by {
            assert(edges@.to_multiset().count(edges@[k]) > 0);
            assert(mapped.contains(edges@[k]));
            let k0 = choose|k0: int| 0 <= k0 < mapped.len() && mapped[k0] == edges@[k];
            assert(mapped[k0] == export_edge(g, graph_edges(g)[k0]));
            assert(graph_edges(g)[k0].source < n && graph_edges(g)[k0].target < n);
        }
    }
    let s = Snapshot { files, nodes, edges };
    assert(placements(s.nodes@) =~= canonical_placements(g));
    assert(s.files.len() == file_uris(s.files@).len());
    Ok(s)
}

/// The file path that a URI names, where it is a `file` URI (written out
/// with `to_string_lossy`), by the path rules of the platform the crate is
/// built for.
pub uninterp spec fn url_file_path(uri: Seq<char>) -> Option<Seq<char>>;

/// What remains of `path` after the leading components of `root`, where
/// `path` starts with them, by the path rules of the platform the crate is
/// built for.
pub uninterp spec fn path_below(path: Seq<char>, root: Seq<char>) -> Option<Seq<char>>;

/// `Url::parse`, then `Url::to_file_path`: the path of a `file` URI;
/// `None` where either fails. The result is named by `url_file_path`.
#[verifier::external_body]
fn file_path(uri: &str) -> (path: Option<String>)
    ensures
        match path {
            Some(p) => url_file_path(uri@) == Some(p@),
            None => url_file_path(uri@) is None,
        },
{
    let url = match async_lsp::lsp_types::Url::parse(uri) {
        Ok(url) => url,
        Err(_) => return None,
    };
    match url.to_file_path() {
        Ok(path) => Some(path.to_string_lossy().into_owned()),
        Err(()) => None,
    }
}

/// `Path::strip_prefix`: the rest of `path` below `root`, or `None` where
/// `root` is not a prefix of it. The result is named by `path_below`.
#[verifier::external_body]
fn strip_root(path: &str, root: &str) -> (rest: Option<String>)
    ensures
        match rest {
            Some(r) => path_below(path@, root@) == Some(r@),
            None => path_below(path@, root@) is None,
        },
{
    match std::path::Path::new(path).strip_prefix(root) {
        Ok(rest) => Some(rest.to_string_lossy().into_owned()),
        Err(_) => None,
    }
}

/// How the compact format shows a file: its path relative to the project
/// root where the URI is a file URI below the root, else the URI itself.
pub open spec fn displayed_uri(uri: Seq<char>, root: Seq<char>) -> Seq<char> {
    match url_file_path(uri) {
        Some(path) => match path_below(path, root) {
            Some(rest) => rest,
            None => uri,
        },
        None => uri,
    }
}

/// How the compact format shows a file (see `displayed_uri`).
pub fn display_uri(uri: &str, root: &str) -> (shown: String)
    ensures
        shown@ == displayed_uri(uri@, root@),
{
    match file_path(uri) {
        Some(path) => match strip_root(path.as_str(), root) {
            Some(rest) => rest,
            None => uri.to_owned(),
        },
        None => uri.to_owned(),
    }
}

/// `Path::canonicalize`: the absolute form of a path, with symbolic links
/// resolved, read from the file system; `None` where that fails. What the
/// file system answers is not stated.
#[verifier::external_body]
fn canonicalize(path: &str) -> (resolved: Option<String>) {
    match std::path::Path::new(path).canonicalize() {
        Ok(resolved) => Some(resolved.to_string_lossy().into_owned()),
        Err(_) => None,
    }
}

/// The canonical form of the project root, or an error that names it. The
/// form itself comes from the file system and is not stated.
pub fn canonical_root(root: &str) -> (r: Result<String, PlexusError>)
    ensures
        r matches Err(e) ==> e matches PlexusError::UnresolvedRoot { root: shown } && shown@ == root@,
{
    resolved_root(root, canonicalize(root))
}

/// What the project root `root` comes to, given what the file system
/// resolved it to: that form where it was resolved, else an error that names
/// `root` as given.
pub fn resolved_root(root: &str, resolved: Option<String>) -> (r: Result<String, PlexusError>)
    ensures
        resolved matches Some(p) ==> (r matches Ok(s) && s@ == p@),
        resolved is None ==> (r matches Err(PlexusError::UnresolvedRoot { root: shown }) && shown@ == root@),
{
    match resolved {
        Some(p) => Ok(p),
        None => Err(PlexusError::UnresolvedRoot { root: root.to_owned() }),
    }
}

/// The graph has a canonical snapshot: its identities are distinct and its
/// containment is a forest.
pub open spec fn renderable(g: ProgramGraph) -> bool {
    canonical_identities(g).no_duplicates() && containment_verdict(
        canonical_placements(g),
        canonical_edges(g),
    ) is Ok
}

/// `s` is the canonical snapshot of `g`.
pub open spec fn snapshot_of(g: ProgramGraph, s: Snapshot) -> bool {
    renderable(g) && exports(g, s) && well_formed(s)
}

/// `e` is why `g` has no canonical snapshot.
pub open spec fn snapshot_error(g: ProgramGraph, e: PlexusError) -> bool {
    if canonical_identities(g).no_duplicates() {
        containment_verdict(canonical_placements(g), canonical_edges(g)) == Err::<(), PlexusError>(e)
    } else {
        identity_error(g, e)
    }
}

impl Snapshot {
    /// The canonical snapshot of `graph`. It fails when two nodes share an
    /// identity, and when containment is not a forest of one tree per file.
    pub fn new(graph: &ProgramGraph) -> (r: Result<Snapshot, PlexusError>)
        ensures
            match r {
                Ok(s) => snapshot_of(*graph, s),
                Err(e) => !renderable(*graph) && snapshot_error(*graph, e),
            },
    {
        match export_graph(graph) {
            Err(e) => Err(e),
            Ok(s) => match validate_containment(&s.nodes, &s.edges) {
                Err(e) => Err(e),
                Ok(()) => Ok(s),
            },
        }
    }
}

/// `"<nodes> nodes, <edges> relationships"` and a line feed.
pub open spec fn summary_text(nodes: nat, edges: nat) -> Seq<char> {
    digits(nodes) + " nodes, "@ + digits(edges) + " relationships\n"@
}

/// The one-line summary of a graph: how many nodes and relationships it has.
pub fn write_summary(graph: &ProgramGraph) -> (text: String)
    ensures
        text@ == summary_text(graph_nodes(*graph).len(), graph_edges(*graph).len()),
{
    let mut text = String::new();
    push_digits(&mut text, node_count(graph) as u64);
    push_str(&mut text, " nodes, ");
    push_digits(&mut text, edge_count(graph) as u64);
    push_str(&mut text, " relationships\n");
    text
}

/// The edges of a graph as the identities of their endpoints and the fact.
pub open spec fn identity_edges(g: ProgramGraph) -> Seq<(Identity, Relation, Identity)> {
    graph_edges(g).map_values(
        |e: Edge| (identities(g)[e.source as int], e.relation, identities(g)[e.target as int]),
    )
}

/// An edge between identities, numbered by its endpoints' positions in `c`.
pub open spec fn numbered(c: Seq<Identity>) -> spec_fn((Identity, Relation, Identity)) -> ExportEdge {
    |t: (Identity, Relation, Identity)|
        ExportEdge { source: c.index_of(t.0) as usize, relation: t.1, target: c.index_of(t.2) as usize }
}

/// Mapping the items of two lists that hold the same items, counted with
/// multiplicity, gives two lists that hold the same items.
proof fn lemma_map_same_items<A, B>(a: Seq<A>, b: Seq<A>, f: spec_fn(A) -> B)
    requires
        a.to_multiset() == b.to_multiset(),
    ensures
        a.map_values(f).to_multiset() == b.map_values(f).to_multiset(),
    decreases a.len(),
{
    broadcast use vstd::seq_lib::group_to_multiset_ensures;
    broadcast use vstd::multiset::group_multiset_axioms;

    if a.len() == 0 {
        vstd::seq_lib::to_multiset_len(b);
        assert(b.len() == 0);
        assert(a.map_values(f) =~= Seq::<B>::empty());
        assert(b.map_values(f) =~= Seq::<B>::empty());
    } else {
        let x = a.last();
        assert(a =~= a.drop_last().push(x));
        vstd::seq_lib::to_multiset_build(a.drop_last(), x);
        assert(b.to_multiset().count(x) > 0);
        vstd::seq_lib::to_multiset_contains(b, x);
        let i = choose|i: int| 0 <= i < b.len() && b[i] == x;
        vstd::seq_lib::to_multiset_remove(b, i);
        assert(a.drop_last().to_multiset() =~= b.remove(i).to_multiset());
        lemma_map_same_items(a.drop_last(), b.remove(i), f);
        assert(a.map_values(f) =~= a.drop_last().map_values(f).push(f(x)));
        vstd::seq_lib::to_multiset_build(a.drop_last().map_values(f), f(x));
        assert(b.map_values(f).remove(i) =~= b.remove(i).map_values(f));
        vstd::seq_lib::to_multiset_remove(b.map_values(f), i);
        assert(b.map_values(f).to_multiset() =~= b.map_values(f).remove(i).to_multiset().insert(f(x)));
    }
}

/// The snapshot does not depend on the order in which nodes and edges were
/// added to the graph: two graphs whose nodes have the same identities, and
/// whose edges join the same identities by the same facts, each counted
/// with multiplicity, have the same canonical files, nodes and edges, are
/// renderable alike and have the same snapshots.
pub proof fn lemma_insertion_order(g1: ProgramGraph, g2: ProgramGraph)
    requires
        identities(g1).to_multiset() == identities(g2).to_multiset(),
        identity_edges(g1).to_multiset() == identity_edges(g2).to_multiset(),
    ensures
        canonical_identities(g1) == canonical_identities(g2),
        canonical_files(g1) == canonical_files(g2),
        canonical_edges(g1) == canonical_edges(g2),
        renderable(g1) == renderable(g2),
        forall|s: Snapshot| snapshot_of(g1, s) <==> snapshot_of(g2, s),
{
    lemma_identity_total_ordering();
    identities(g1).lemma_sort_by_ensures(identity_le());
    identities(g2).lemma_sort_by_ensures(identity_le());
    vstd::seq_lib::lemma_sorted_unique(canonical_identities(g1), canonical_identities(g2), identity_le());
    let c = canonical_identities(g1);
    assert(graph_edges(g1).map_values(|e: Edge| export_edge(g1, e)) =~= identity_edges(g1).map_values(numbered(c)));
    assert(graph_edges(g2).map_values(|e: Edge| export_edge(g2, e)) =~= identity_edges(g2).map_values(numbered(c)));
    lemma_map_same_items(identity_edges(g1), identity_edges(g2), numbered(c));
    lemma_edge_total_ordering();
    let m1 = graph_edges(g1).map_values(|e: Edge| export_edge(g1, e));
    let m2 = graph_edges(g2).map_values(|e: Edge| export_edge(g2, e));
    m1.lemma_sort_by_ensures(edge_le());
    m2.lemma_sort_by_ensures(edge_le());
    vstd::seq_lib::lemma_sorted_unique(m1.sort_by(edge_le()), m2.sort_by(edge_le()), edge_le());
    assert(canonical_edges(g1) == canonical_edges(g2));
    assert(canonical_placements(g1) =~= canonical_placements(g2));
}

/// In the canonical numbering, of two nodes of one document with one start,
/// the one that ends later (the enclosing one) gets the smaller identifier.
pub proof fn lemma_encloser_numbered_first(g: ProgramGraph, i: int, j: int)
    requires
        0 <= i < canonical_identities(g).len(),
        0 <= j < canonical_identities(g).len(),
        canonical_identities(g)[i].0 == canonical_identities(g)[j].0,
        canonical_identities(g)[i].1 == canonical_identities(g)[j].1,
        ({
            let (a, b) = (canonical_identities(g)[i].2, canonical_identities(g)[j].2);
            b.line < a.line || (b.line == a.line && b.character < a.character)
        }),
    ensures
        i < j,
{
    let c = canonical_identities(g);
    lemma_sort_sorted(identities(g));
    crate::identity::lemma_enclosing_first(c[i], c[j]);
    lemma_identity_order_antisymmetric(c[i], c[j]);
    if j <= i {
        if j < i {
            assert(identity_le()(c[j], c[i]));
        }
    }
}

/// The canonical order of identities is sorted.
proof fn lemma_sort_sorted(ids: Seq<Identity>)
    ensures
        sorted_by(ids.sort_by(identity_le()), identity_le()),
        ids.sort_by(identity_le()).len() == ids.len(),
{
    lemma_identity_total_ordering();
    ids.lemma_sort_by_ensures(identity_le());
    vstd::seq_lib::to_multiset_len(ids);
    vstd::seq_lib::to_multiset_len(ids.sort_by(identity_le()));
}


/// The file node last seen for a file, one node further.
proof fn lemma_file_node_step(nodes: Seq<(NodeKind, int)>, p: int, f: int)
    requires
        0 <= p < nodes.len(),
    ensures
        file_node_of(nodes.take(p + 1), f) == if nodes[p].0 == NodeKind::File && nodes[p].1 == f {
            Some(p)
        } else {
            file_node_of(nodes.take(p), f)
        },
{
    assert(nodes.take(p + 1).drop_last() =~= nodes.take(p));
}

/// The parent last recorded for a node, one edge further.
proof fn lemma_parent_step(edges: Seq<ExportEdge>, k: int, c: int)
    requires
        0 <= k < edges.len(),
    ensures
        parent_of(edges.take(k + 1), c) == if edges[k].relation == Relation::Contains
            && edges[k].target == c {
            Some(edges[k].source as int)
        } else {
            parent_of(edges.take(k), c)
        },
{
    assert(edges.take(k + 1).drop_last() =~= edges.take(k));
}

/// Checks that the containment edges of a snapshot form a forest inside each
/// file: one file node per file, containment only within a file, no parent
/// for a file node, at most one parent per node, and no cycle.
pub fn validate_containment(nodes: &Vec<ExportNode>, edges: &Vec<ExportEdge>) -> (r: Result<
    (),
    PlexusError,
>)
    requires
        edges_within(placements(nodes@), edges@),
    ensures
        r == containment_verdict(placements(nodes@), edges@),
{
    let ghost pl = placements(nodes@);
    let n = nodes.len();
    // One file node per file.
    let mut seen: Vec<(usize, usize)> = Vec::new();
    let mut p: usize = 0;
    while p < n
        invariant
            pl == placements(nodes@),
            n == nodes.len(),
            p <= n,
            forall|q: int| 0 <= q < p ==> !#[trigger] file_clash(pl, q),
            forall|t: int|
                0 <= t < seen.len() ==> file_node_of(pl.take(p as int), (#[trigger] seen@[t]).0 as int)
                    == Some(seen@[t].1 as int),
            forall|f: int|
                #[trigger] file_node_of(pl.take(p as int), f) is Some ==> exists|t: int|
                    0 <= t < seen.len() && (#[trigger] seen@[t]).0 as int == f,
        decreases n - p,
    {
        assert(pl[p as int] == (nodes@[p as int].kind, nodes@[p as int].file as int));
        let ghost before = seen@;
        if nodes[p].kind == NodeKind::File {
            let file = nodes[p].file;
            let mut t: usize = 0;
            #[verifier::loop_isolation(false)]
            while t < seen.len()
                invariant
                    t <= seen.len(),
                    forall|u: int| 0 <= u < t ==> (#[trigger] seen@[u]).0 != file,
                decreases seen.len() - t,
            {
                if seen[t].0 == file {
                    proof {
                        assert(file_clash(pl, p as int));
                        lemma_first_where_is(clash_at(pl), pl.len(), p as int);
                    }
                    return Err(
                        PlexusError::MultipleFileNodes { file, previous: seen[t].1, node: p },
                    );
                }
                t = t + 1;
            }
            proof {
                if file_node_of(pl.take(p as int), file as int) is Some {
                    let u = choose|u: int| 0 <= u < seen.len() && (#[trigger] seen@[u]).0 as int == file as int;
                    assert(seen@[u].0 == file);
                }
            }
            seen.push((file, p));
        }
        proof {
            assert forall|t: int|
                0 <= t < seen.len() implies file_node_of(
                pl.take(p + 1),
                (#[trigger] seen@[t]).0 as int,
            ) == Some(seen@[t].1 as int) by {
                lemma_file_node_step(pl, p as int, seen@[t].0 as int);
            }
            assert forall|f: int| #[trigger] file_node_of(pl.take(p + 1), f) is Some implies exists|t: int|
                0 <= t < seen.len() && (#[trigger] seen@[t]).0 as int == f by {
                lemma_file_node_step(pl, p as int, f);
                if pl[p as int].0 == NodeKind::File && pl[p as int].1 == f {
                    assert(seen@[seen.len() - 1].0 as int == f);
                } else {
                    assert(file_node_of(pl.take(p as int), f) is Some);
                    let t = choose|t: int| 0 <= t < before.len() && (#[trigger] before[t]).0 as int == f;
                    assert(seen@[t] == before[t]);
                }
            }
        }
        p = p + 1;
    }
    proof {
        lemma_first_where(clash_at(pl), pl.len());
    }
    // Containment edges: within a file, never above a file node, one parent per node.
    let m = edges.len();
    let mut parents: Vec<Option<usize>> = Vec::new();
    let mut c: usize = 0;
    while c < n
        invariant
            c <= n,
            parents.len() == c,
            forall|d: int| 0 <= d < c ==> parents@[d] is None,
        decreases n - c,
    {
        parents.push(None);
        c = c + 1;
    }
    assert forall|d: int| 0 <= d < n implies parent_of(edges@.take(0), d) is None by {
        assert(edges@.take(0).len() == 0);
    }
    let mut k: usize = 0;
    while k < m
        invariant
            pl == placements(nodes@),
            n == nodes.len(),
            m == edges.len(),
            edges_within(pl, edges@),
            first_where(clash_at(pl), pl.len()) is None,
            k <= m,
            parents.len() == n,
            forall|d: int|
                0 <= d < n ==> match #[trigger] parents@[d] {
                    Some(x) => parent_of(edges@.take(k as int), d) == Some(x as int) && x < n,
                    None => parent_of(edges@.take(k as int), d) is None,
                },
            forall|j: int| 0 <= j < k ==> !#[trigger] fault_at(pl, edges@)(j),
        decreases m - k,
    {
        let e = edges[k];
        assert(e == edges@[k as int]);
        assert(e.source < n && e.target < n);
        assert(pl[e.source as int] == (nodes@[e.source as int].kind, nodes@[e.source as int].file as int));
        assert(pl[e.target as int] == (nodes@[e.target as int].kind, nodes@[e.target as int].file as int));
        if e.relation == Relation::Contains {
            if nodes[e.source].file != nodes[e.target].file {
                proof {
                    lemma_first_where_is(fault_at(pl, edges@), edges@.len(), k as int);
                }
                return Err(PlexusError::CrossFileContainment { source: e.source, target: e.target });
            }
            if nodes[e.target].kind == NodeKind::File {
                proof {
                    lemma_first_where_is(fault_at(pl, edges@), edges@.len(), k as int);
                }
                return Err(PlexusError::FileNodeHasParent { node: e.target });
            }
            match parents[e.target] {
                Some(x) => {
                    if x != e.source {
                        proof {
                            lemma_first_where_is(fault_at(pl, edges@), edges@.len(), k as int);
                        }
                        return Err(
                            PlexusError::MultipleParents { node: e.target, first: x, second: e.source },
                        );
                    }
                },
                None => {},
            }
            parents.set(e.target, Some(e.source));
        }
        assert(!fault_at(pl, edges@)(k as int));
        assert forall|d: int| 0 <= d < n implies match #[trigger] parents@[d] {
            Some(x) => parent_of(edges@.take(k + 1), d) == Some(x as int) && x < n,
            None => parent_of(edges@.take(k + 1), d) is None,
        } by {
            lemma_parent_step(edges@, k as int, d);
        }
        k = k + 1;
    }
    assert(edges@.take(m as int) =~= edges@);
    proof {
        lemma_first_where(fault_at(pl, edges@), edges@.len());
    }
    // Every containment chain ends.
    let mut c: usize = 0;
    while c < n
        invariant
            pl == placements(nodes@),
            n == nodes.len(),
            n == pl.len(),
            parents.len() == n,
            first_where(clash_at(pl), pl.len()) is None,
            first_where(fault_at(pl, edges@), edges@.len()) is None,
            forall|d: int|
                0 <= d < n ==> match #[trigger] parents@[d] {
                    Some(x) => parent_of(edges@, d) == Some(x as int) && x < n,
                    None => parent_of(edges@, d) is None,
                },
            c <= n,
            forall|j: int| 0 <= j < c ==> !#[trigger] unending_at(pl, edges@)(j),
        decreases n - c,
    {
        let mut current: usize = c;
        let mut steps: usize = 0;
        while steps < n && parents[current].is_some()
            invariant
                n == pl.len(),
                parents.len() == n,
                forall|d: int|
                    0 <= d < n ==> match #[trigger] parents@[d] {
                        Some(x) => parent_of(edges@, d) == Some(x as int) && x < n,
                        None => parent_of(edges@, d) is None,
                    },
                current < n,
                steps <= n,
                chain_ends(edges@, c as int, n as nat) == chain_ends(
                    edges@,
                    current as int,
                    (n - steps) as nat,
                ),
            decreases n - steps,
        {
            let ghost before = current;
            assert(parents@[before as int] is Some);
            current = parents[current].unwrap();
            steps = steps + 1;
        }
        assert(parents@[current as int] is Some || parents@[current as int] is None);
        if parents[current].is_some() {
            proof {
                lemma_first_where_is(unending_at(pl, edges@), pl.len(), c as int);
            }
            return Err(PlexusError::CyclicContainment { node: c });
        }
        c = c + 1;
    }
    proof {
        lemma_first_where(unending_at(pl, edges@), pl.len());
    }
    Ok(())
}

} // verus!
