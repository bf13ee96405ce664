//! The program graph: nodes for source symbols and files, edges for the
//! direct facts `contains`, `calls`, `reads` and `writes`.
//!
//! The graph itself is a `petgraph` directed graph. Verus sees it through two
//! names for its contents, `graph_nodes` and `graph_edges`, which the
//! trusted wrappers below keep up to date.
use vstd::prelude::*;

use crate::text::decimal;

verus! {

/// A zero-based position in a text document (line, UTF-16 character offset).
#[derive(Clone, Copy, Debug, PartialEq, Eq, Structural)]
pub struct Position {
    pub line: u32,
    pub character: u32,
}

/// A range in a text document; the end position is exclusive.
#[derive(Clone, Copy, Debug, PartialEq, Eq, Structural)]
pub struct Range {
    pub start: Position,
    pub end: Position,
}

/// A range inside one document, the document named by its URI.
#[derive(Clone, Debug)]
pub struct Location {
    pub uri: String,
    pub range: Range,
}

/// The kind of a symbol, as the language server reports it.
///
/// The variants follow the numbering of the protocol's `SymbolKind`; a code
/// outside that numbering is kept as `Unknown`.
#[derive(Clone, Copy, Debug, PartialEq, Eq, Structural)]
pub enum NodeKind {
    File,
    Module,
    Namespace,
    Package,
    Class,
    Method,
    Property,
    Field,
    Constructor,
    Enum,
    Interface,
    Function,
    Variable,
    Constant,
    String,
    Number,
    Boolean,
    Array,
    Object,
    Key,
    Null,
    EnumMember,
    Struct,
    Event,
    Operator,
    TypeParameter,
    Unknown(i32),
}

/// A direct fact between two nodes.
#[derive(Clone, Copy, Debug, PartialEq, Eq, Structural)]
pub enum Relation {
    Contains,
    Calls,
    Reads,
    Writes,
}

/// A node of the program graph.
#[derive(Clone, Debug)]
pub struct Node {
    pub name: String,
    pub kind: NodeKind,
    pub location: Location,
}

/// An edge of the graph as plain values: node indices and the fact.
#[derive(Clone, Copy, Debug, PartialEq, Eq, Structural)]
pub struct Edge {
    pub source: usize,
    pub relation: Relation,
    pub target: usize,
}

/// The program graph.
pub type ProgramGraph = petgraph::graph::Graph<Node, Relation>;

/// The node weights of a graph, in the order of their indices.
pub uninterp spec fn graph_nodes(g: ProgramGraph) -> Seq<Node>;

/// The edges of a graph, in the order in which they were added.
pub uninterp spec fn graph_edges(g: ProgramGraph) -> Seq<Edge>;

/// `Graph::new`: an empty directed graph.
#[verifier::external_body]
pub(crate) fn new_graph() -> (g: ProgramGraph)
    ensures
        graph_nodes(g) == Seq::<Node>::empty(),
        graph_edges(g) == Seq::<Edge>::empty(),
{
    petgraph::graph::Graph::new()
}

/// `Graph::node_count`: the number of nodes.
#[verifier::external_body]
pub(crate) fn node_count(g: &ProgramGraph) -> (n: usize)
    ensures
        n == graph_nodes(*g).len(),
{
    g.node_count()
}

/// The number of nodes of a graph: its node indices are those below it.
pub fn graph_node_count(g: &ProgramGraph) -> (n: usize)
    ensures
        n == graph_nodes(*g).len(),
{
    node_count(g)
}

/// `Graph::edge_count`: the number of edges.
#[verifier::external_body]
pub(crate) fn edge_count(g: &ProgramGraph) -> (n: usize)
    ensures
        n == graph_edges(*g).len(),
{
    g.edge_count()
}

/// `Graph::add_node`: appends a node, whose index is the former node count.
/// With `u32` indices it panics once the count has reached `u32::MAX`, which
/// the `requires` leaves out.
#[verifier::external_body]
pub(crate) fn add_node(g: &mut ProgramGraph, node: Node) -> (i: usize)
    requires
        graph_nodes(*old(g)).len() < 0xFFFF_FFFF,
    ensures
        graph_nodes(*final(g)) == graph_nodes(*old(g)).push(node),
        graph_edges(*final(g)) == graph_edges(*old(g)),
        i == graph_nodes(*old(g)).len(),
{
    g.add_node(node).index()
}

/// `Graph::add_edge`: appends an edge. It panics when an endpoint is not a
/// node, or once the edge count has reached `u32::MAX`; the `requires` leaves
/// both out.
#[verifier::external_body]
pub(crate) fn add_edge(g: &mut ProgramGraph, source: usize, target: usize, relation: Relation)
    requires
        source < graph_nodes(*old(g)).len(),
        target < graph_nodes(*old(g)).len(),
        graph_edges(*old(g)).len() < 0xFFFF_FFFF,
    ensures
        graph_edges(*final(g)) == graph_edges(*old(g)).push(
            Edge { source, relation, target },
        ),
        graph_nodes(*final(g)) == graph_nodes(*old(g)),
{
    g.add_edge(
        petgraph::graph::NodeIndex::new(source),
        petgraph::graph::NodeIndex::new(target),
        relation,
    );
}

/// Indexing a graph by a node index (`graph[index]`): the node's weight.
#[verifier::external_body]
pub(crate) fn node_at(g: &ProgramGraph, index: usize) -> (node: &Node)
    requires
        index < graph_nodes(*g).len(),
    ensures
        *node == graph_nodes(*g)[index as int],
{
    &g[petgraph::graph::NodeIndex::new(index)]
}

/// `Graph::raw_edges`, read at one position: the edge added at that
/// position. Every edge of a `Graph` joins two of its nodes.
#[verifier::external_body]
pub(crate) fn edge_at(g: &ProgramGraph, index: usize) -> (edge: Edge)
    requires
        index < graph_edges(*g).len(),
    ensures
        edge == graph_edges(*g)[index as int],
        edge.source < graph_nodes(*g).len(),
        edge.target < graph_nodes(*g).len(),
{
    let raw = &g.raw_edges()[index];
    Edge { source: raw.source().index(), relation: raw.weight, target: raw.target().index() }
}

/// Whether `edges` holds an edge from `source` to `target` for the fact `r`.
pub open spec fn recorded(edges: Seq<Edge>, source: usize, r: Relation, target: usize) -> bool {
    exists|k: int| 0 <= k < edges.len() && edges[k] == (Edge { source, relation: r, target })
}

/// `Graph::edges_connecting`, by weight: the facts recorded from `source` to
/// `target`. The order in which they come is left unsaid here.
#[verifier::external_body]
pub(crate) fn relations_between(g: &ProgramGraph, source: usize, target: usize) -> (found: Vec<Relation>)
    requires
        source < graph_nodes(*g).len(),
        target < graph_nodes(*g).len(),
    ensures
        forall|r: Relation| #[trigger] found@.contains(r) == recorded(graph_edges(*g), source, r, target),
{
    g.edges_connecting(
        petgraph::graph::NodeIndex::new(source),
        petgraph::graph::NodeIndex::new(target),
    ).map(|edge| *edge.weight()).collect()
}

/// The code of a kind in the protocol's numbering.
pub open spec fn kind_code(k: NodeKind) -> int {
    match k {
        NodeKind::File => 1,
        NodeKind::Module => 2,
        NodeKind::Namespace => 3,
        NodeKind::Package => 4,
        NodeKind::Class => 5,
        NodeKind::Method => 6,
        NodeKind::Property => 7,
        NodeKind::Field => 8,
        NodeKind::Constructor => 9,
        NodeKind::Enum => 10,
        NodeKind::Interface => 11,
        NodeKind::Function => 12,
        NodeKind::Variable => 13,
        NodeKind::Constant => 14,
        NodeKind::String => 15,
        NodeKind::Number => 16,
        NodeKind::Boolean => 17,
        NodeKind::Array => 18,
        NodeKind::Object => 19,
        NodeKind::Key => 20,
        NodeKind::Null => 21,
        NodeKind::EnumMember => 22,
        NodeKind::Struct => 23,
        NodeKind::Event => 24,
        NodeKind::Operator => 25,
        NodeKind::TypeParameter => 26,
        NodeKind::Unknown(code) => code as int,
    }
}

/// The kind that a protocol code stands for.
pub open spec fn kind_of_code(code: i32) -> NodeKind {
    if code == 1 { NodeKind::File }
    else if code == 2 { NodeKind::Module }
    else if code == 3 { NodeKind::Namespace }
    else if code == 4 { NodeKind::Package }
    else if code == 5 { NodeKind::Class }
    else if code == 6 { NodeKind::Method }
    else if code == 7 { NodeKind::Property }
    else if code == 8 { NodeKind::Field }
    else if code == 9 { NodeKind::Constructor }
    else if code == 10 { NodeKind::Enum }
    else if code == 11 { NodeKind::Interface }
    else if code == 12 { NodeKind::Function }
    else if code == 13 { NodeKind::Variable }
    else if code == 14 { NodeKind::Constant }
    else if code == 15 { NodeKind::String }
    else if code == 16 { NodeKind::Number }
    else if code == 17 { NodeKind::Boolean }
    else if code == 18 { NodeKind::Array }
    else if code == 19 { NodeKind::Object }
    else if code == 20 { NodeKind::Key }
    else if code == 21 { NodeKind::Null }
    else if code == 22 { NodeKind::EnumMember }
    else if code == 23 { NodeKind::Struct }
    else if code == 24 { NodeKind::Event }
    else if code == 25 { NodeKind::Operator }
    else if code == 26 { NodeKind::TypeParameter }
    else { NodeKind::Unknown(code) }
}

/// The rank of a kind in the declaration order of `NodeKind`: every named kind
/// comes before every unknown one.
pub open spec fn kind_rank(k: NodeKind) -> int {
    match k {
        NodeKind::Unknown(_) => 27,
        _ => kind_code(k),
    }
}

/// The strict order of kinds: by declaration order, unknown kinds by code.
pub open spec fn kind_lt(a: NodeKind, b: NodeKind) -> bool {
    kind_rank(a) < kind_rank(b) || (kind_rank(a) == kind_rank(b) && match (a, b) {
        (NodeKind::Unknown(x), NodeKind::Unknown(y)) => x < y,
        _ => false,
    })
}

/// The lower-case name of a kind; an unknown kind is written as its code.
pub open spec fn kind_display(k: NodeKind) -> Seq<char> {
    match k {
        NodeKind::File => "file"@,
        NodeKind::Module => "module"@,
        NodeKind::Namespace => "namespace"@,
        NodeKind::Package => "package"@,
        NodeKind::Class => "class"@,
        NodeKind::Method => "method"@,
        NodeKind::Property => "property"@,
        NodeKind::Field => "field"@,
        NodeKind::Constructor => "constructor"@,
        NodeKind::Enum => "enum"@,
        NodeKind::Interface => "interface"@,
        NodeKind::Function => "function"@,
        NodeKind::Variable => "variable"@,
        NodeKind::Constant => "constant"@,
        NodeKind::String => "string"@,
        NodeKind::Number => "number"@,
        NodeKind::Boolean => "boolean"@,
        NodeKind::Array => "array"@,
        NodeKind::Object => "object"@,
        NodeKind::Key => "key"@,
        NodeKind::Null => "null"@,
        NodeKind::EnumMember => "enum_member"@,
        NodeKind::Struct => "struct"@,
        NodeKind::Event => "event"@,
        NodeKind::Operator => "operator"@,
        NodeKind::TypeParameter => "type_parameter"@,
        NodeKind::Unknown(code) => crate::text::decimal_int(code as int),
    }
}

/// The lower-case name of a fact.
pub open spec fn relation_name(r: Relation) -> Seq<char> {
    match r {
        Relation::Contains => "contains"@,
        Relation::Calls => "calls"@,
        Relation::Reads => "reads"@,
        Relation::Writes => "writes"@,
    }
}

impl Relation {
    /// The lower-case name of the fact.
    pub fn as_str(&self) -> (s: &'static str)
        ensures
            s@ == relation_name(*self),
    {
        match self {
            Relation::Contains => "contains",
            Relation::Calls => "calls",
            Relation::Reads => "reads",
            Relation::Writes => "writes",
        }
    }
}

impl NodeKind {
    /// The kind that the protocol's symbol kind `code` stands for.
    pub fn from_code(code: i32) -> (k: NodeKind)
        ensures
            k == kind_of_code(code),
    {
        match code {
            1 => NodeKind::File,
            2 => NodeKind::Module,
            3 => NodeKind::Namespace,
            4 => NodeKind::Package,
            5 => NodeKind::Class,
            6 => NodeKind::Method,
            7 => NodeKind::Property,
            8 => NodeKind::Field,
            9 => NodeKind::Constructor,
            10 => NodeKind::Enum,
            11 => NodeKind::Interface,
            12 => NodeKind::Function,
            13 => NodeKind::Variable,
            14 => NodeKind::Constant,
            15 => NodeKind::String,
            16 => NodeKind::Number,
            17 => NodeKind::Boolean,
            18 => NodeKind::Array,
            19 => NodeKind::Object,
            20 => NodeKind::Key,
            21 => NodeKind::Null,
            22 => NodeKind::EnumMember,
            23 => NodeKind::Struct,
            24 => NodeKind::Event,
            25 => NodeKind::Operator,
            26 => NodeKind::TypeParameter,
            _ => NodeKind::Unknown(code),
        }
    }

    /// The lower-case name of the kind, or the code of an unknown kind.
    pub fn display(&self) -> (s: String)
        ensures
            s@ == kind_display(*self),
    {
        let name = match self {
            NodeKind::File => "file",
            NodeKind::Module => "module",
            NodeKind::Namespace => "namespace",
            NodeKind::Package => "package",
            NodeKind::Class => "class",
            NodeKind::Method => "method",
            NodeKind::Property => "property",
            NodeKind::Field => "field",
            NodeKind::Constructor => "constructor",
            NodeKind::Enum => "enum",
            NodeKind::Interface => "interface",
            NodeKind::Function => "function",
            NodeKind::Variable => "variable",
            NodeKind::Constant => "constant",
            NodeKind::String => "string",
            NodeKind::Number => "number",
            NodeKind::Boolean => "boolean",
            NodeKind::Array => "array",
            NodeKind::Object => "object",
            NodeKind::Key => "key",
            NodeKind::Null => "null",
            NodeKind::EnumMember => "enum_member",
            NodeKind::Struct => "struct",
            NodeKind::Event => "event",
            NodeKind::Operator => "operator",
            NodeKind::TypeParameter => "type_parameter",
            NodeKind::Unknown(code) => {
                return decimal(*code);
            },
        };
        name.to_owned()
    }
}

} // verus!
