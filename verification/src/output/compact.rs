//! The compact format: a lossy, low-token rendering of a snapshot.
//!
//! After a header line, each file is written as `@<file node id> <path>`
//! followed by its containment tree (two spaces of indent per level, each
//! line `<id> <kind> <line>:<character> <name>`); then, for `calls`, `reads`
//! and `writes` in turn, a section of adjacency lines `<source>:<t1>,<t2>`.
use vstd::prelude::*;

use crate::error::PlexusError;
use crate::graph::{kind_display, relation_name, NodeKind, ProgramGraph, Relation};
use crate::output::{
    canonical_root, display_uri, displayed_uri, file_node_of, parent_of, placements, renderable,
    snapshot_error, snapshot_of, well_formed,
    ExportEdge, ExportNode, Snapshot,
};
use crate::seqs::distinct_runs;
use crate::text::{digits, escaped, push_digits, push_str, write_escaped};

verus! {

/// The first line of the compact format.
pub open spec fn compact_header() -> Seq<char> {
    "plexus/1 positions=utf-16,zero-based\n"@
}

/// How a kind is written: `fn` for functions, else its name.
pub open spec fn kind_word(k: NodeKind) -> Seq<char> {
    if k == NodeKind::Function {
        "fn"@
    } else {
        kind_display(k)
    }
}

/// Two spaces per level.
pub open spec fn indent(depth: nat) -> Seq<char>
    decreases depth,
{
    if depth == 0 {
        Seq::empty()
    } else {
        indent((depth - 1) as nat) + "  "@
    }
}

/// The line of node `id` at the given depth.
pub open spec fn node_line(n: ExportNode, id: int, depth: nat) -> Seq<char> {
    indent(depth) + digits(id as nat) + " "@ + kind_word(n.kind) + " "@ + digits(
        n.range.start.line as nat,
    ) + ":"@ + digits(n.range.start.character as nat) + " "@ + escaped(n.name@) + "\n"@
}

/// The integers `0..n`.
pub open spec fn upto(n: nat) -> Seq<int> {
    Seq::new(n, |i: int| i)
}

/// Node `c` has `id` as its containment parent.
pub open spec fn child_of(s: Snapshot, id: int) -> spec_fn(int) -> bool {
    |c: int| parent_of(s.edges@, c) == Some(id)
}

/// The children of a node, ascending.
pub open spec fn children(s: Snapshot, id: int) -> Seq<int> {
    upto(s.nodes.len() as nat).filter(child_of(s, id))
}

/// The tree below node `id`, written from `depth`, at most `budget` levels
/// below it.
pub open spec fn tree(s: Snapshot, id: int, depth: nat, budget: nat) -> Seq<char>
    decreases budget, 0nat, 0nat,
{
    node_line(s.nodes@[id], id, depth) + if budget == 0 {
        Seq::empty()
    } else {
        trees(s, children(s, id), depth + 1, (budget - 1) as nat)
    }
}

/// The trees below the given nodes, one after the other.
pub open spec fn trees(s: Snapshot, ids: Seq<int>, depth: nat, budget: nat) -> Seq<char>
    decreases budget, 1nat, ids.len(),
{
    if ids.len() == 0 {
        Seq::empty()
    } else {
        trees(s, ids.drop_last(), depth, budget) + tree(s, ids.last(), depth, budget)
    }
}

/// The file node of file `f`.
pub open spec fn file_node(s: Snapshot, f: int) -> Option<int> {
    file_node_of(placements(s.nodes@), f)
}

/// Node `id` starts a tree of file `f`: it belongs to the file, is not its
/// file node, and has no parent but the file node.
pub open spec fn top_of(s: Snapshot, f: int) -> spec_fn(int) -> bool {
    |id: int|
        s.nodes@[id].file == f && file_node(s, f) != Some(id) && match parent_of(s.edges@, id) {
            None => true,
            Some(p) => file_node(s, f) == Some(p),
        }
}

/// The nodes that start the trees of file `f`, ascending.
pub open spec fn tops(s: Snapshot, f: int) -> Seq<int> {
    upto(s.nodes.len() as nat).filter(top_of(s, f))
}

/// The section of file `f`: its line, then its trees.
pub open spec fn file_section(s: Snapshot, f: int, root: Seq<char>) -> Seq<char> {
    "\n@"@ + match file_node(s, f) {
        Some(id) => digits(id as nat),
        None => "-"@,
    } + " "@ + escaped(displayed_uri(s.files@[f]@, root)) + "\n"@ + trees(
        s,
        tops(s, f),
        0,
        s.nodes.len() as nat,
    )
}

/// The sections of the first `count` files.
pub open spec fn files_text(s: Snapshot, root: Seq<char>, count: nat) -> Seq<char>
    decreases count,
{
    if count == 0 {
        Seq::empty()
    } else {
        files_text(s, root, (count - 1) as nat) + file_section(s, count - 1, root)
    }
}

/// Filtering `0..n+1` adds `n` where it qualifies.
proof fn lemma_upto_filter(n: nat, p: spec_fn(int) -> bool)
    ensures
        upto(n + 1).filter(p) == if p(n as int) {
            upto(n).filter(p).push(n as int)
        } else {
            upto(n).filter(p)
        },
{
    reveal(Seq::filter);
    assert(upto(n + 1).drop_last() =~= upto(n));
}

/// The parent of each node, as `parent_of` finds it.
pub fn parent_table(edges: &Vec<ExportEdge>, n: usize) -> (parents: Vec<Option<usize>>)
    requires
        forall|k: int| 0 <= k < edges.len() ==> (#[trigger] edges@[k]).source < n,
    ensures
        parents.len() == n,
        forall|d: int|
            0 <= d < n ==> match #[trigger] parents@[d] {
                Some(x) => parent_of(edges@, d) == Some(x as int) && x < n,
                None => parent_of(edges@, d) is None,
            },
{
    let mut parents: Vec<Option<usize>> = Vec::new();
    let mut c: usize = 0;
    while c < n
        invariant
            c <= n,
            parents.len() == c,
            forall|d: int| 0 <= d < c ==> parents@[d] is None,
        decreases n - c,
    {
        parents.push(None);
        c = c + 1;
    }
    let m = edges.len();
    let mut k: usize = 0;
    while k < m
        invariant
            m == edges.len(),
            forall|k: int| 0 <= k < edges.len() ==> (#[trigger] edges@[k]).source < n,
            k <= m,
            parents.len() == n,
            forall|d: int|
                0 <= d < n ==> match #[trigger] parents@[d] {
                    Some(x) => parent_of(edges@.take(k as int), d) == Some(x as int) && x < n,
                    None => parent_of(edges@.take(k as int), d) is None,
                },
        decreases m - k,
    {
        let e = edges[k];
        if e.relation == Relation::Contains && e.target < n {
            parents.set(e.target, Some(e.source));
        }
        assert forall|d: int| 0 <= d < n implies match #[trigger] parents@[d] {
            Some(x) => parent_of(edges@.take(k + 1), d) == Some(x as int) && x < n,
            None => parent_of(edges@.take(k + 1), d) is None,
        } by {
            assert(edges@.take(k + 1).drop_last() =~= edges@.take(k as int));
        }
        k = k + 1;
    }
    assert(edges@.take(m as int) =~= edges@);
    parents
}

/// The file node of each file, as `file_node_of` finds it.
pub fn file_node_table(nodes: &Vec<ExportNode>, file_count: usize) -> (table: Vec<Option<usize>>)
    requires
        forall|p: int| 0 <= p < nodes.len() ==> (#[trigger] nodes@[p]).file < file_count,
    ensures
        table.len() == file_count,
        forall|f: int|
            0 <= f < file_count ==> match #[trigger] table@[f] {
                Some(x) => file_node_of(placements(nodes@), f) == Some(x as int),
                None => file_node_of(placements(nodes@), f) is None,
            },
{
    let ghost pl = placements(nodes@);
    let mut table: Vec<Option<usize>> = Vec::new();
    let mut f: usize = 0;
    while f < file_count
        invariant
            f <= file_count,
            table.len() == f,
            forall|d: int| 0 <= d < f ==> table@[d] is None,
        decreases file_count - f,
    {
        table.push(None);
        f = f + 1;
    }
    let n = nodes.len();
    let mut p: usize = 0;
    while p < n
        invariant
            pl == placements(nodes@),
            n == nodes.len(),
            forall|p: int| 0 <= p < nodes.len() ==> (#[trigger] nodes@[p]).file < file_count,
            p <= n,
            table.len() == file_count,
            forall|f: int|
                0 <= f < file_count ==> match #[trigger] table@[f] {
                    Some(x) => file_node_of(pl.take(p as int), f) == Some(x as int),
                    None => file_node_of(pl.take(p as int), f) is None,
                },
        decreases n - p,
    {
        assert(pl[p as int] == (nodes@[p as int].kind, nodes@[p as int].file as int));
        if nodes[p].kind == NodeKind::File {
            table.set(nodes[p].file, Some(p));
        }
        assert forall|f: int| 0 <= f < file_count implies match #[trigger] table@[f] {
            Some(x) => file_node_of(pl.take(p + 1), f) == Some(x as int),
            None => file_node_of(pl.take(p + 1), f) is None,
        } by {
            assert(pl.take(p + 1).drop_last() =~= pl.take(p as int));
        }
        p = p + 1;
    }
    assert(pl.take(n as int) =~= pl);
    table
}

/// Appends the line of node `id`.
fn write_node_line(output: &mut String, s: &Snapshot, id: usize, depth: usize)
    requires
        id < s.nodes.len(),
    ensures
        final(output)@ == old(output)@ + node_line(s.nodes@[id as int], id as int, depth as nat),
{
    let ghost start = output@;
    let mut level: usize = 0;
    while level < depth
        invariant
            level <= depth,
            output@ == start + indent(level as nat),
        decreases depth - level,
    {
        push_str(output, "  ");
        level = level + 1;
    }
    let node = &s.nodes[id];
    push_digits(output, id as u64);
    push_str(output, " ");
    if node.kind == NodeKind::Function {
        push_str(output, "fn");
    } else {
        push_str(output, node.kind.display().as_str());
    }
    push_str(output, " ");
    push_digits(output, node.range.start.line as u64);
    push_str(output, ":");
    push_digits(output, node.range.start.character as u64);
    push_str(output, " ");
    write_escaped(output, node.name.as_str());
    push_str(output, "\n");
}

/// Appends the tree below node `id`.
fn write_tree(
    output: &mut String,
    s: &Snapshot,
    parents: &Vec<Option<usize>>,
    id: usize,
    depth: usize,
    budget: usize,
)
    requires
        id < s.nodes.len(),
        depth + budget <= s.nodes.len(),
        parents.len() == s.nodes.len(),
        forall|d: int|
            0 <= d < s.nodes.len() ==> match #[trigger] parents@[d] {
                Some(x) => parent_of(s.edges@, d) == Some(x as int),
                None => parent_of(s.edges@, d) is None,
            },
    ensures
        final(output)@ == old(output)@ + tree(*s, id as int, depth as nat, budget as nat),
    decreases budget,
{
    let ghost start = output@;
    write_node_line(output, s, id, depth);
    if budget > 0 {
        let n = s.nodes.len();
        let ghost line = output@;
        let mut c: usize = 0;
        while c < n
            invariant
                n == s.nodes.len(),
                c <= n,
                id < n,
                budget > 0,
                depth + budget <= n,
                parents.len() == n,
                forall|d: int|
                    0 <= d < n ==> match #[trigger] parents@[d] {
                        Some(x) => parent_of(s.edges@, d) == Some(x as int),
                        None => parent_of(s.edges@, d) is None,
                    },
                output@ == line + trees(
                    *s,
                    upto(c as nat).filter(child_of(*s, id as int)),
                    (depth + 1) as nat,
                    (budget - 1) as nat,
                ),
            decreases n - c,
        {
            proof {
                lemma_upto_filter(c as nat, child_of(*s, id as int));
            }
            let is_child = match parents[c] {
                Some(x) => x == id,
                None => false,
            };
            if is_child {
                write_tree(output, s, parents, c, depth + 1, budget - 1);
                assert(upto(c as nat).filter(child_of(*s, id as int)).push(c as int).drop_last()
                    =~= upto(c as nat).filter(child_of(*s, id as int)));
            }
            c = c + 1;
        }
    }
}


/// Appends the sections of all files.
fn write_files(
    output: &mut String,
    s: &Snapshot,
    root: &str,
    parents: &Vec<Option<usize>>,
    table: &Vec<Option<usize>>,
)
    requires
        well_formed(*s),
        parents.len() == s.nodes.len(),
        forall|d: int|
            0 <= d < s.nodes.len() ==> match #[trigger] parents@[d] {
                Some(x) => parent_of(s.edges@, d) == Some(x as int),
                None => parent_of(s.edges@, d) is None,
            },
        table.len() == s.files.len(),
        forall|f: int|
            0 <= f < s.files.len() ==> match #[trigger] table@[f] {
                Some(x) => file_node_of(placements(s.nodes@), f) == Some(x as int),
                None => file_node_of(placements(s.nodes@), f) is None,
            },
    ensures
        final(output)@ == old(output)@ + files_text(*s, root@, s.files.len() as nat),
{
    let ghost start = output@;
    let n = s.nodes.len();
    let file_count = s.files.len();
    let mut f: usize = 0;
    while f < file_count
        invariant
            well_formed(*s),
            n == s.nodes.len(),
            file_count == s.files.len(),
            f <= file_count,
            parents.len() == n,
            forall|d: int|
                0 <= d < n ==> match #[trigger] parents@[d] {
                    Some(x) => parent_of(s.edges@, d) == Some(x as int),
                    None => parent_of(s.edges@, d) is None,
                },
            table.len() == file_count,
            forall|f: int|
                0 <= f < file_count ==> match #[trigger] table@[f] {
                    Some(x) => file_node_of(placements(s.nodes@), f) == Some(x as int),
                    None => file_node_of(placements(s.nodes@), f) is None,
                },
            output@ == start + files_text(*s, root@, f as nat),
        decreases file_count - f,
    {
        let ghost before = output@;
        push_str(output, "\n@");
        match table[f] {
            Some(id) => push_digits(output, id as u64),
            None => push_str(output, "-"),
        }
        push_str(output, " ");
        let shown = display_uri(s.files[f].as_str(), root);
        write_escaped(output, shown.as_str());
        push_str(output, "\n");
        let ghost line = output@;
        let mut id: usize = 0;
        while id < n
            invariant
                well_formed(*s),
                n == s.nodes.len(),
                file_count == s.files.len(),
                f < file_count,
                id <= n,
                parents.len() == n,
                forall|d: int|
                    0 <= d < n ==> match #[trigger] parents@[d] {
                        Some(x) => parent_of(s.edges@, d) == Some(x as int),
                        None => parent_of(s.edges@, d) is None,
                    },
                table.len() == file_count,
                forall|f: int|
                    0 <= f < file_count ==> match #[trigger] table@[f] {
                        Some(x) => file_node_of(placements(s.nodes@), f) == Some(x as int),
                        None => file_node_of(placements(s.nodes@), f) is None,
                    },
                output@ == line + trees(
                    *s,
                    upto(id as nat).filter(top_of(*s, f as int)),
                    0,
                    n as nat,
                ),
            decreases n - id,
        {
            proof {
                lemma_upto_filter(id as nat, top_of(*s, f as int));
            }
            let is_file_node = match table[f] {
                Some(x) => x == id,
                None => false,
            };
            let under_file = match parents[id] {
                None => true,
                Some(p) => match table[f] {
                    Some(x) => x == p,
                    None => false,
                },
            };
            if s.nodes[id].file == f && !is_file_node && under_file {
                write_tree(output, s, parents, id, 0, n);
                assert(upto(id as nat).filter(top_of(*s, f as int)).push(id as int).drop_last()
                    =~= upto(id as nat).filter(top_of(*s, f as int)));
            }
            id = id + 1;
        }
        assert(output@ =~= before + file_section(*s, f as int, root@));
        f = f + 1;
    }
}

/// The edges of one fact, in order.
pub open spec fn with_relation(edges: Seq<ExportEdge>, r: Relation) -> Seq<ExportEdge> {
    edges.filter(|e: ExportEdge| e.relation == r)
}

/// Identifiers separated by commas.
pub open spec fn joined(ids: Seq<int>) -> Seq<char>
    decreases ids.len(),
{
    if ids.len() == 0 {
        Seq::empty()
    } else if ids.len() == 1 {
        digits(ids[0] as nat)
    } else {
        joined(ids.drop_last()) + ","@ + digits(ids.last() as nat)
    }
}

/// The edge leaves `source`.
pub open spec fn leaves(source: int) -> spec_fn(ExportEdge) -> bool {
    |e: ExportEdge| e.source == source
}

/// The targets of the edges from `source`, repeats of adjacent ones dropped.
pub open spec fn targets_of(es: Seq<ExportEdge>, source: int) -> Seq<int> {
    distinct_runs(es.filter(leaves(source)).map_values(|e: ExportEdge| e.target as int))
}

/// The sources of the edges, repeats of adjacent ones dropped.
pub open spec fn sources(es: Seq<ExportEdge>) -> Seq<int> {
    distinct_runs(es.map_values(|e: ExportEdge| e.source as int))
}

/// One adjacency line per source.
pub open spec fn adjacency_lines(es: Seq<ExportEdge>, srcs: Seq<int>) -> Seq<char>
    decreases srcs.len(),
{
    if srcs.len() == 0 {
        Seq::empty()
    } else {
        adjacency_lines(es, srcs.drop_last()) + digits(srcs.last() as nat) + ":"@ + joined(
            targets_of(es, srcs.last()),
        ) + "\n"@
    }
}

/// The section of one fact: its name, then its adjacency lines; nothing
/// where the fact has no edge.
pub open spec fn relation_section(edges: Seq<ExportEdge>, r: Relation) -> Seq<char> {
    let es = with_relation(edges, r);
    if es.len() == 0 {
        Seq::empty()
    } else {
        "\n"@ + relation_name(r) + "\n"@ + adjacency_lines(es, sources(es))
    }
}

/// The text of a snapshot in the compact format, files shown relative to
/// `root`.
pub open spec fn compact_text(s: Snapshot, root: Seq<char>) -> Seq<char> {
    compact_header() + files_text(s, root, s.files.len() as nat) + relation_section(
        s.edges@,
        Relation::Calls,
    ) + relation_section(s.edges@, Relation::Reads) + relation_section(s.edges@, Relation::Writes)
}

/// The section of a fact so far: all but the line feed that ends it.
#[verifier::opaque]
spec fn partial_section(es: Seq<ExportEdge>, r: Relation) -> Seq<char> {
    if es.len() == 0 {
        Seq::empty()
    } else {
        let last = sources(es).last();
        "\n"@ + relation_name(r) + "\n"@ + adjacency_lines(es, sources(es).drop_last()) + digits(
            last as nat,
        ) + ":"@ + joined(targets_of(es, last))
    }
}

/// Adding an edge changes no targets of another source.
proof fn lemma_targets_other(es: Seq<ExportEdge>, e: ExportEdge, v: int)
    requires
        e.source != v,
    ensures
        targets_of(es.push(e), v) == targets_of(es, v),
{
    reveal(Seq::filter);
    assert(es.push(e).drop_last() =~= es);
}

/// Adding an edge from `v` adds its target unless it repeats the last one.
proof fn lemma_targets_same(es: Seq<ExportEdge>, e: ExportEdge)
    requires
        es.len() > 0,
        es.last().source == e.source,
    ensures
        targets_of(es, e.source as int).len() > 0,
        targets_of(es.push(e), e.source as int) == if es.last().target == e.target {
            targets_of(es, e.source as int)
        } else {
            targets_of(es, e.source as int).push(e.target as int)
        },
{
    reveal(Seq::filter);
    let v = e.source as int;
    assert(es.push(e).drop_last() =~= es);
    let x = es.filter(leaves(v)).map_values(|e: ExportEdge| e.target as int);
    assert(es.filter(leaves(v)) == es.drop_last().filter(leaves(v)).push(es.last()));
    assert(es.push(e).filter(leaves(v)).map_values(|e: ExportEdge| e.target as int) =~= x.push(
        e.target as int,
    ));
    assert(x.last() == es.last().target);
    assert(x.len() > 0);
    lemma_distinct_runs_nonempty(x);
    assert(x.push(e.target as int).drop_last() =~= x);
}

/// Where no edge leaves `v`, the first edge from `v` is its only target.
proof fn lemma_targets_fresh(es: Seq<ExportEdge>, e: ExportEdge)
    requires
        forall|i: int| 0 <= i < es.len() ==> (#[trigger] es[i]).source != e.source,
    ensures
        targets_of(es.push(e), e.source as int) == seq![e.target as int],
    decreases es.len(),
{
    reveal(Seq::filter);
    let v = e.source as int;
    assert(es.push(e).drop_last() =~= es);
    lemma_filter_none(es, v);
    assert(es.push(e).filter(leaves(v)) =~= seq![e]);
    assert(seq![e].map_values(|e: ExportEdge| e.target as int) =~= seq![e.target as int]);
    lemma_distinct_runs_single(e.target as int);
}

/// No edge of `es` leaves `v`.
proof fn lemma_filter_none(es: Seq<ExportEdge>, v: int)
    requires
        forall|i: int| 0 <= i < es.len() ==> (#[trigger] es[i]).source != v,
    ensures
        es.filter(leaves(v)) == Seq::<ExportEdge>::empty(),
    decreases es.len(),
{
    reveal(Seq::filter);
    if es.len() > 0 {
        lemma_filter_none(es.drop_last(), v);
    }
}

/// Runs of a non-empty sequence are non-empty, and the last run is of its
/// last element.
proof fn lemma_distinct_runs_nonempty<A>(s: Seq<A>)
    requires
        s.len() > 0,
    ensures
        distinct_runs(s).len() > 0,
        distinct_runs(s).last() == s.last(),
    decreases s.len(),
{
    if s.len() >= 2 {
        lemma_distinct_runs_nonempty(s.drop_last());
    }
}

/// Every run is of an element of the sequence.
proof fn lemma_distinct_runs_members(s: Seq<int>)
    ensures
        forall|i: int| 0 <= i < distinct_runs(s).len() ==> s.contains(#[trigger] distinct_runs(s)[i]),
    decreases s.len(),
{
    if s.len() > 0 {
        lemma_distinct_runs_members(s.drop_last());
        assert forall|i: int| 0 <= i < distinct_runs(s).len() implies s.contains(
            #[trigger] distinct_runs(s)[i],
        ) by {
            let r = distinct_runs(s.drop_last());
            if i < r.len() {
                assert(s.drop_last().contains(r[i]));
                let j = choose|j: int| 0 <= j < s.drop_last().len() && s.drop_last()[j] == r[i];
                assert(s[j] == r[i]);
            } else {
                assert(s[s.len() - 1] == distinct_runs(s)[i]);
            }
        }
    }
}

/// The runs of a non-decreasing sequence increase strictly.
proof fn lemma_distinct_runs_increasing(s: Seq<int>)
    requires
        forall|i: int, j: int| 0 <= i < j < s.len() ==> s[i] <= s[j],
    ensures
        forall|i: int, j: int|
            0 <= i < j < distinct_runs(s).len() ==> distinct_runs(s)[i] < distinct_runs(s)[j],
    decreases s.len(),
{
    if s.len() > 0 {
        let t = s.drop_last();
        lemma_distinct_runs_increasing(t);
        lemma_distinct_runs_members(t);
        if t.len() > 0 {
            lemma_distinct_runs_nonempty(t);
        }
        assert forall|i: int, j: int|
            0 <= i < j < distinct_runs(s).len() implies distinct_runs(s)[i] < distinct_runs(s)[j] by {
            let r = distinct_runs(t);
            if j >= r.len() {
                assert(r.len() > 0 ==> r.last() == t.last());
                assert(s.contains(s.last()));
                assert(t.contains(r[i]));
                let k = choose|k: int| 0 <= k < t.len() && t[k] == r[i];
                assert(s[k] <= s[s.len() - 1]);
                assert(t.len() >= 1);
                assert(s[s.len() - 2] != s.last());
                if i < r.len() - 1 {
                    assert(r[i] < r[r.len() - 1]);
                }
            }
        }
    }
}

/// Adjacency lines of sources whose targets are unchanged are unchanged.
proof fn lemma_adjacency_stable(es: Seq<ExportEdge>, e: ExportEdge, srcs: Seq<int>)
    requires
        forall|i: int| 0 <= i < srcs.len() ==> #[trigger] srcs[i] != e.source,
    ensures
        adjacency_lines(es.push(e), srcs) == adjacency_lines(es, srcs),
    decreases srcs.len(),
{
    if srcs.len() > 0 {
        lemma_adjacency_stable(es, e, srcs.drop_last());
        lemma_targets_other(es, e, srcs.last());
    }
}

/// Runs of a single element.
proof fn lemma_distinct_runs_single<A>(x: A)
    ensures
        distinct_runs(seq![x]) == seq![x],
{
    let s = seq![x];
    assert(s.drop_last() =~= Seq::<A>::empty());
    assert(distinct_runs(s.drop_last()) == s.drop_last());
    assert(s.drop_last().push(x) =~= s);
}

/// The edges of a fact, one edge further.
proof fn lemma_with_relation_step(edges: Seq<ExportEdge>, k: int, r: Relation)
    requires
        0 <= k < edges.len(),
    ensures
        with_relation(edges.take(k + 1), r) == if edges[k].relation == r {
            with_relation(edges.take(k), r).push(edges[k])
        } else {
            with_relation(edges.take(k), r)
        },
{
    reveal(Seq::filter);
    assert(edges.take(k + 1).drop_last() =~= edges.take(k));
}

/// The section of a fact's first edge.
proof fn lemma_section_first(e: ExportEdge, r: Relation)
    ensures
        partial_section(Seq::<ExportEdge>::empty(), r) == Seq::<char>::empty(),
        partial_section(seq![e], r) == "\n"@ + relation_name(r) + "\n"@ + digits(e.source as nat)
            + ":"@ + digits(e.target as nat),
{
    reveal(partial_section);
    assert(Seq::<ExportEdge>::empty().push(e) =~= seq![e]);
    lemma_targets_fresh(Seq::<ExportEdge>::empty(), e);
    assert(seq![e].map_values(|x: ExportEdge| x.source as int) =~= seq![e.source as int]);
    lemma_distinct_runs_single(e.source as int);
    assert(sources(seq![e]).drop_last() =~= Seq::<int>::empty());
}

/// The sources of a non-empty list end with its last source; in a list
/// sorted by source they increase strictly and occur in it.
proof fn lemma_sources(es: Seq<ExportEdge>)
    requires
        es.len() > 0,
        forall|i: int, j: int| 0 <= i < j < es.len() ==> es[i].source <= es[j].source,
    ensures
        sources(es).len() > 0,
        sources(es).last() == es.last().source,
        forall|i: int, j: int| 0 <= i < j < sources(es).len() ==> sources(es)[i] < sources(es)[j],
        forall|i: int|
            0 <= i < sources(es).len() ==> exists|j: int|
                0 <= j < es.len() && es[j].source == #[trigger] sources(es)[i],
{
    let m = es.map_values(|x: ExportEdge| x.source as int);
    lemma_distinct_runs_nonempty(m);
    lemma_distinct_runs_increasing(m);
    lemma_distinct_runs_members(m);
    assert forall|i: int| 0 <= i < sources(es).len() implies exists|j: int|
        0 <= j < es.len() && es[j].source == #[trigger] sources(es)[i] by {
        assert(m.contains(sources(es)[i]));
        let j = choose|j: int| 0 <= j < m.len() && m[j] == sources(es)[i];
        assert(es[j].source == m[j]);
    }
}

/// An edge from the last source adds a target, unless it repeats the last.
proof fn lemma_section_same(es: Seq<ExportEdge>, e: ExportEdge, r: Relation)
    requires
        es.len() > 0,
        es.last().source == e.source,
        forall|i: int, j: int| 0 <= i < j < es.len() ==> es[i].source <= es[j].source,
    ensures
        partial_section(es.push(e), r) == partial_section(es, r) + if es.last().target == e.target {
            Seq::<char>::empty()
        } else {
            ","@ + digits(e.target as nat)
        },
{
    reveal(partial_section);
    lemma_sources(es);
    lemma_targets_same(es, e);
    let m = es.map_values(|x: ExportEdge| x.source as int);
    assert(es.push(e).map_values(|x: ExportEdge| x.source as int) =~= m.push(e.source as int));
    assert(m.push(e.source as int).drop_last() =~= m);
    assert(sources(es.push(e)) == sources(es));
    let srcs = sources(es);
    assert forall|i: int| 0 <= i < srcs.drop_last().len() implies #[trigger] srcs.drop_last()[i]
        != e.source by {
        assert(srcs[i] < srcs[srcs.len() - 1]);
    }
    lemma_adjacency_stable(es, e, srcs.drop_last());
    let t = targets_of(es, e.source as int);
    assert(t.push(e.target as int).drop_last() =~= t);
}

/// An edge from a new, greater source adds that source, and its target as
/// the only one; the lines of the earlier sources stay.
proof fn lemma_new_source(es: Seq<ExportEdge>, e: ExportEdge)
    requires
        es.len() > 0,
        forall|i: int| 0 <= i < es.len() ==> (#[trigger] es[i]).source < e.source,
        forall|i: int, j: int| 0 <= i < j < es.len() ==> es[i].source <= es[j].source,
    ensures
        sources(es.push(e)) == sources(es).push(e.source as int),
        targets_of(es.push(e), e.source as int) == seq![e.target as int],
        adjacency_lines(es.push(e), sources(es)) == adjacency_lines(es, sources(es)),
        sources(es).len() > 0,
        sources(es).last() == es.last().source,
{
    lemma_sources(es);
    lemma_targets_fresh(es, e);
    let m = es.map_values(|x: ExportEdge| x.source as int);
    assert(es.push(e).map_values(|x: ExportEdge| x.source as int) =~= m.push(e.source as int));
    assert(m.push(e.source as int).drop_last() =~= m);
    let srcs = sources(es);
    assert(m.last() == es.last().source);
    assert forall|i: int| 0 <= i < srcs.len() implies #[trigger] srcs[i] != e.source by {
        let j = choose|j: int| 0 <= j < es.len() && es[j].source == srcs[i];
    }
    lemma_adjacency_stable(es, e, srcs);
}

/// An edge from a new, greater source starts a line.
proof fn lemma_section_new(es: Seq<ExportEdge>, e: ExportEdge, r: Relation)
    requires
        es.len() > 0,
        forall|i: int| 0 <= i < es.len() ==> (#[trigger] es[i]).source < e.source,
        forall|i: int, j: int| 0 <= i < j < es.len() ==> es[i].source <= es[j].source,
    ensures
        partial_section(es.push(e), r) == partial_section(es, r) + "\n"@ + digits(e.source as nat)
            + ":"@ + digits(e.target as nat),
{
    reveal(partial_section);
    lemma_new_source(es, e);
    let srcs = sources(es);
    assert(srcs.push(e.source as int).drop_last() =~= srcs);
    assert(srcs.drop_last().push(srcs.last()) =~= srcs);
    assert(joined(seq![e.target as int]) == digits(e.target as nat));
    let head = "\n"@ + relation_name(r) + "\n"@;
    let old_lines = adjacency_lines(es, srcs.drop_last());
    let last = srcs.last();
    assert(adjacency_lines(es, srcs) == old_lines + digits(last as nat) + ":"@ + joined(
        targets_of(es, last),
    ) + "\n"@);
    assert(partial_section(es.push(e), r) =~= head + adjacency_lines(es, srcs) + digits(
        e.source as nat,
    ) + ":"@ + digits(e.target as nat));
    assert(partial_section(es, r) =~= head + old_lines + digits(last as nat) + ":"@ + joined(
        targets_of(es, last),
    ));
}

/// A section is its partial section and a line feed.
proof fn lemma_section_close(es: Seq<ExportEdge>, r: Relation)
    requires
        es.len() > 0,
        forall|i: int, j: int| 0 <= i < j < es.len() ==> es[i].source <= es[j].source,
    ensures
        "\n"@ + relation_name(r) + "\n"@ + adjacency_lines(es, sources(es)) == partial_section(es, r)
            + "\n"@,
{
    reveal(partial_section);
    lemma_sources(es);
    let srcs = sources(es);
    assert(srcs.drop_last().push(srcs.last()) =~= srcs);
}

/// Appends the section of fact `r` of a sorted list of edges.
fn write_relation(output: &mut String, edges: &Vec<ExportEdge>, r: Relation)
    requires
        vstd::relations::sorted_by(edges@, crate::sorting::edge_le()),
    ensures
        final(output)@ == old(output)@ + relation_section(edges@, r),
{
    let ghost start = output@;
    let m = edges.len();
    let mut started = false;
    let mut current: usize = 0;
    let mut last_target: usize = 0;
    let ghost mut last_k: int = 0;
    let mut k: usize = 0;
    assert(with_relation(edges@.take(0), r) =~= Seq::<ExportEdge>::empty()) by {
        reveal(Seq::filter);
    }
    let ghost mut es: Seq<ExportEdge> = Seq::empty();
    proof {
        reveal(partial_section);
    }
    while k < m
        invariant
            m == edges.len(),
            vstd::relations::sorted_by(edges@, crate::sorting::edge_le()),
            k <= m,
            es == with_relation(edges@.take(k as int), r),
            output@ == start + partial_section(es, r),
            started == (es.len() > 0),
            started ==> {
                &&& es.last().source == current
                &&& es.last().target == last_target
                &&& 0 <= last_k < k
                &&& edges@[last_k] == es.last()
                &&& forall|i: int| 0 <= i < es.len() ==> (#[trigger] es[i]).source <= current
            },
            forall|i: int, j: int| 0 <= i < j < es.len() ==> es[i].source <= es[j].source,
        decreases m - k,
    {
        let e = edges[k];
        proof {
            lemma_with_relation_step(edges@, k as int, r);
        }
        if e.relation == r {
            if !started {
                proof {
                    assert(es =~= Seq::<ExportEdge>::empty());
                    assert(es.push(e) =~= seq![e]);
                    lemma_section_first(e, r);
                }
                push_str(output, "\n");
                push_str(output, r.as_str());
                push_str(output, "\n");
                push_digits(output, e.source as u64);
                push_str(output, ":");
                push_digits(output, e.target as u64);
                assert(output@ =~= start + partial_section(es.push(e), r));
                started = true;
            } else {
                assert(crate::sorting::edge_le()(edges@[last_k], edges@[k as int]));
                if e.source == current {
                    proof {
                        lemma_section_same(es, e, r);
                    }
                    if e.target != last_target {
                        push_str(output, ",");
                        push_digits(output, e.target as u64);
                    }
                } else {
                    proof {
                        lemma_section_new(es, e, r);
                    }
                    push_str(output, "\n");
                    push_digits(output, e.source as u64);
                    push_str(output, ":");
                    push_digits(output, e.target as u64);
                    assert(output@ =~= start + partial_section(es.push(e), r));
                }
            }
            proof {
                last_k = k as int;
                es = es.push(e);
            }
            current = e.source;
            last_target = e.target;
        }
        k = k + 1;
    }
    assert(edges@.take(m as int) =~= edges@);
    if started {
        push_str(output, "\n");
        proof {
            lemma_section_close(es, r);
        }
    }
}

/// The compact text of a well-formed snapshot, files shown relative to `root`.
pub fn render_compact(s: &Snapshot, root: &str) -> (text: String)
    requires
        well_formed(*s),
    ensures
        text@ == compact_text(*s, root@),
{
    let parents = parent_table(&s.edges, s.nodes.len());
    let table = file_node_table(&s.nodes, s.files.len());
    let mut output = String::new();
    push_str(&mut output, "plexus/1 positions=utf-16,zero-based\n");
    write_files(&mut output, s, root, &parents, &table);
    write_relation(&mut output, &s.edges, Relation::Calls);
    write_relation(&mut output, &s.edges, Relation::Reads);
    write_relation(&mut output, &s.edges, Relation::Writes);
    output
}


/// The graph in the compact format, files shown relative to the canonical
/// form of `root`. It fails where the root cannot be resolved, or the graph
/// has no canonical snapshot. Which canonical form the file system gives the
/// root is not stated here; `render_compact` states the text for each.
pub fn write_compact(graph: &ProgramGraph, root: &str) -> (r: Result<String, PlexusError>)
    ensures
        r matches Ok(text) ==> exists|s: Snapshot, shown: Seq<char>|
            snapshot_of(*graph, s) && text@ == compact_text(s, shown),
        r matches Err(e) ==> (e matches PlexusError::UnresolvedRoot { root: named } && named@
            == root@) || (!renderable(*graph) && snapshot_error(*graph, e)),
        !renderable(*graph) ==> r is Err,
{
    match canonical_root(root) {
        Ok(resolved) => compact_for(graph, resolved.as_str()),
        Err(e) => Err(e),
    }
}

/// The graph in the compact format, files shown relative to the resolved
/// root `resolved`. It fails where the graph has no canonical snapshot.
pub fn compact_for(graph: &ProgramGraph, resolved: &str) -> (r: Result<String, PlexusError>)
    ensures
        r matches Ok(text) ==> exists|s: Snapshot| snapshot_of(*graph, s) && text@ == compact_text(s, resolved@),
        r matches Err(e) ==> !renderable(*graph) && snapshot_error(*graph, e),
        renderable(*graph) <==> r is Ok,
{
    match Snapshot::new(graph) {
        Ok(snapshot) => {
            let text = render_compact(&snapshot, resolved);
            Ok(text)
        },
        Err(e) => Err(e),
    }
}

/// The file node that `file_node_of` finds is a node of kind `file` of that
/// file.
proof fn lemma_file_node_is_file(nodes: Seq<(NodeKind, int)>, f: int)
    ensures
        file_node_of(nodes, f) matches Some(p) ==> 0 <= p < nodes.len() && nodes[p].0 == NodeKind::File
            && nodes[p].1 == f,
    decreases nodes.len(),
{
    if nodes.len() > 0 {
        lemma_file_node_is_file(nodes.drop_last(), f);
    }
}

/// Every node of a snapshot that is not a file node and has no containment
/// parent, or only its file's file node as parent, starts a tree of its
/// file in the compact format.
pub proof fn lemma_top_nodes_listed(s: Snapshot, id: int)
    requires
        0 <= id < s.nodes.len(),
        s.nodes@[id].kind != NodeKind::File,
        parent_of(s.edges@, id) is None || parent_of(s.edges@, id) == file_node(s, s.nodes@[id].file as int),
    ensures
        tops(s, s.nodes@[id].file as int).contains(id),
{
    let f = s.nodes@[id].file as int;
    lemma_file_node_is_file(placements(s.nodes@), f);
    assert(placements(s.nodes@)[id].0 == s.nodes@[id].kind);
    assert(file_node(s, f) != Some(id));
    let all = upto(s.nodes.len() as nat);
    assert(all[id] == id);
    assert(top_of(s, f)(all[id]));
    all.lemma_filter_contains(top_of(s, f), id);
}

/// Every node with a containment parent is listed among that parent's
/// children in the compact format.
pub proof fn lemma_children_listed(s: Snapshot, id: int, parent: int)
    requires
        0 <= id < s.nodes.len(),
        parent_of(s.edges@, id) == Some(parent),
    ensures
        children(s, parent).contains(id),
{
    let all = upto(s.nodes.len() as nat);
    assert(all[id] == id);
    assert(child_of(s, parent)(all[id]));
    all.lemma_filter_contains(child_of(s, parent), id);
}

} // verus!
