//! Building the program graph from what a language server reports.
//!
//! The language server is driven from outside; this module takes its answers
//! as plain values and decides what they add to the graph: a node per file,
//! a node per symbol (locals inside callables excepted) contained in its
//! parent, `calls` edges between call hierarchy items, and `reads` and
//! `writes` edges from the innermost enclosing callable to the state it
//! accesses.
use vstd::prelude::*;

use crate::error::PlexusError;
use crate::graph::{
    add_edge, add_node, graph_edges, graph_nodes, new_graph, node_at, node_count, recorded,
    relations_between, Edge, Location, Node, NodeKind, Position, ProgramGraph, Range, Relation,
};
use crate::seqs::{first_where, lemma_first_where, lemma_first_where_is};

verus! {

/// A document read from the workspace: its URI and its text.
#[derive(Debug)]
pub struct SourceDocument {
    pub uri: String,
    pub text: String,
}

/// The path of a URI, or `None` where the URI does not parse.
pub uninterp spec fn url_path(uri: Seq<char>) -> Option<Seq<char>>;

/// The segments of a URI's path, or `None` where the URI does not parse or
/// its path has no segments.
pub uninterp spec fn url_segments(uri: Seq<char>) -> Option<Seq<Seq<char>>>;

/// `Url::path` of the URI that `uri` writes (parsed with `Url::parse`);
/// `None` where it does not parse. Named by `url_path`.
#[verifier::external_body]
fn uri_path(uri: &str) -> (path: Option<String>)
    ensures
        match path {
            Some(p) => url_path(uri@) == Some(p@),
            None => url_path(uri@) is None,
        },
{
    match async_lsp::lsp_types::Url::parse(uri) {
        Ok(url) => Some(url.path().to_owned()),
        Err(_) => None,
    }
}

/// `Url::path_segments` of the URI that `uri` writes (parsed with
/// `Url::parse`); `None` where it does not parse or has no segments. Named
/// by `url_segments`.
#[verifier::external_body]
fn uri_segments(uri: &str) -> (segments: Option<Vec<String>>)
    ensures
        match segments {
            Some(v) => url_segments(uri@) == Some(string_views(v@)),
            None => url_segments(uri@) is None,
        },
{
    let url = match async_lsp::lsp_types::Url::parse(uri) {
        Ok(url) => url,
        Err(_) => return None,
    };
    match url.path_segments() {
        Some(segments) => Some(segments.map(str::to_owned).collect()),
        None => None,
    }
}

/// The path of a URI, or the URI as written where it does not parse.
pub open spec fn path_or_uri(uri: Seq<char>) -> Seq<char> {
    match url_path(uri) {
        Some(path) => path,
        None => uri,
    }
}

/// The name of a document's file node: the last segment of its URI's path,
/// else its whole path, else (where the URI does not parse) the URI itself.
pub open spec fn file_node_name(uri: Seq<char>) -> Seq<char> {
    match url_segments(uri) {
        Some(segments) => if segments.len() > 0 {
            segments.last()
        } else {
            path_or_uri(uri)
        },
        None => path_or_uri(uri),
    }
}

/// The name of a document's file node (see `file_node_name`).
pub fn file_name(uri: &str) -> (name: String)
    ensures
        name@ == file_node_name(uri@),
{
    match uri_segments(uri) {
        Some(mut segments) => {
            if segments.len() > 0 {
                let ghost views = string_views(segments@);
                let last = segments.pop().unwrap();
                assert(views.last() == last@);
                return last;
            }
        },
        None => {},
    }
    match uri_path(uri) {
        Some(path) => path,
        None => uri.to_owned(),
    }
}

/// A hierarchical document symbol.
pub struct DocumentSymbol {
    pub name: String,
    pub kind: NodeKind,
    pub range: Range,
    pub selection_range: Range,
    pub children: Option<Vec<DocumentSymbol>>,
}

/// The answer to a document symbol request: hierarchical symbols, or a flat
/// list, of which only its length matters here.
pub enum SymbolResponse {
    Nested(Vec<DocumentSymbol>),
    Flat(usize),
}

/// A call hierarchy item.
pub struct CallItem {
    pub name: String,
    pub kind: NodeKind,
    pub uri: String,
    pub range: Range,
    pub selection_range: Range,
}

/// How a document highlight accesses its symbol.
#[derive(Clone, Copy, Debug, PartialEq, Eq, Structural)]
pub enum AccessKind {
    Text,
    Read,
    Write,
    Other(i32),
}

/// A document highlight: a range and, where the server says, its access.
pub struct Highlight {
    pub range: Range,
    pub kind: Option<AccessKind>,
}

/// A symbol of the graph with the location of its name.
pub struct IndexedSymbol {
    pub node: usize,
    pub selection: Location,
}

/// The range of a callable in a document.
pub struct Scope {
    pub uri: String,
    pub node: usize,
    pub range: Range,
}

/// A location as a plain value: URI and range.
pub type Key = (Seq<char>, Range);

/// A node as a plain value: name, kind, URI and range.
pub type NodeView = (Seq<char>, NodeKind, Seq<char>, Range);

/// The key of a location.
pub open spec fn location_key(l: Location) -> Key {
    (l.uri@, l.range)
}

/// The view of a node.
pub open spec fn node_view(n: Node) -> NodeView {
    (n.name@, n.kind, n.location.uri@, n.location.range)
}

/// The views of nodes.
pub open spec fn node_views(nodes: Seq<Node>) -> Seq<NodeView> {
    nodes.map_values(|n: Node| node_view(n))
}

/// The state of a workspace graph as plain values.
pub struct Model {
    /// The nodes of the graph.
    pub nodes: Seq<NodeView>,
    /// The edges of the graph.
    pub edges: Seq<Edge>,
    /// The node of each symbol, by the location of its name.
    pub selections: Seq<(Key, usize)>,
    /// The file node of each document, by URI.
    pub files: Seq<(Seq<char>, usize)>,
    /// The callables of each document: URI, node and range.
    pub scopes: Seq<(Seq<char>, usize, Range)>,
    /// The callables, with the location of their names.
    pub callables: Seq<(usize, Key)>,
    /// The state symbols (fields, and variables and constants outside
    /// callables), with the location of their names.
    pub states: Seq<(usize, Key)>,
}

/// Entry `i` of `pairs` is for `k`.
pub open spec fn entry_for<K, V>(pairs: Seq<(K, V)>, k: K) -> spec_fn(int) -> bool {
    |i: int| pairs[i].0 == k
}

/// The value paired with the first occurrence of `k`.
pub open spec fn find<K>(pairs: Seq<(K, usize)>, k: K) -> Option<usize> {
    match first_where(entry_for(pairs, k), pairs.len()) {
        Some(i) => Some(pairs[i].1),
        None => None,
    }
}

/// Every node index that the model holds is a node, every edge joins
/// nodes, no fact is recorded twice, and no location of a name and no
/// document has two entries.
pub open spec fn model_wf(w: Model) -> bool {
    &&& w.edges.no_duplicates()
    &&& forall|i: int, j: int|
        0 <= i < j < w.selections.len() ==> (#[trigger] w.selections[i]).0 != (#[trigger] w.selections[j]).0
    &&& forall|i: int, j: int| 0 <= i < j < w.files.len() ==> (#[trigger] w.files[i]).0 != (#[trigger] w.files[j]).0
    &&& forall|i: int| 0 <= i < w.selections.len() ==> (#[trigger] w.selections[i]).1 < w.nodes.len()
    &&& forall|i: int| 0 <= i < w.files.len() ==> (#[trigger] w.files[i]).1 < w.nodes.len()
    &&& forall|i: int| 0 <= i < w.scopes.len() ==> (#[trigger] w.scopes[i]).1 < w.nodes.len()
    &&& forall|i: int| 0 <= i < w.callables.len() ==> (#[trigger] w.callables[i]).0 < w.nodes.len()
    &&& forall|i: int| 0 <= i < w.states.len() ==> (#[trigger] w.states[i]).0 < w.nodes.len()
    &&& forall|k: int|
        0 <= k < w.edges.len() ==> (#[trigger] w.edges[k]).source < w.nodes.len() && w.edges[k].target
            < w.nodes.len()
}

/// Room for `k` more nodes and edges below the index limit of the graph.
pub open spec fn room(w: Model, k: nat) -> bool {
    w.nodes.len() + k <= 0xFFFF_FFFF && w.edges.len() + k <= 0xFFFF_FFFF
}

/// Adds a node for a symbol unless its name's location already has one; the
/// node of that location.
pub open spec fn intern_model(w: Model, key: Key, node: NodeView) -> (Model, usize) {
    match find(w.selections, key) {
        Some(i) => (w, i),
        None => (
            Model {
                nodes: w.nodes.push(node),
                selections: w.selections.push((key, w.nodes.len() as usize)),
                ..w
            },
            w.nodes.len() as usize,
        ),
    }
}

/// Records a fact unless it is already recorded.
pub open spec fn relate_model(w: Model, source: usize, target: usize, r: Relation) -> Model {
    if recorded(w.edges, source, r, target) {
        w
    } else {
        Model { edges: w.edges.push(Edge { source, relation: r, target }), ..w }
    }
}

/// Interning again is idempotent: once a name's location has a node,
/// interning that location again, whatever node is offered, changes
/// nothing and gives the same node. As `WorkspaceGraph::intern` and
/// `WorkspaceGraph::intern_call_item` are exactly `intern_model`, two calls
/// of them with the same location return the same index, and the second
/// leaves the workspace as the first left it.
pub proof fn lemma_intern_idempotent(w: Model, key: Key, first: NodeView, second: NodeView)
    ensures
        intern_model(intern_model(w, key, first).0, key, second) == intern_model(w, key, first),
{
    let after = intern_model(w, key, first).0;
    lemma_first_where(entry_for(w.selections, key), w.selections.len());
    if find(w.selections, key) is None {
        let n = w.selections.len();
        assert(after.selections[n as int].0 == key);
        assert forall|j: int| 0 <= j < n implies !#[trigger] entry_for(after.selections, key)(j) by {
            assert(after.selections[j] == w.selections[j]);
            assert(!entry_for(w.selections, key)(j));
        }
        lemma_first_where_is(entry_for(after.selections, key), after.selections.len(), n as int);
    } else {
        let i = first_where(entry_for(w.selections, key), w.selections.len()).unwrap();
        lemma_first_where_is(entry_for(after.selections, key), after.selections.len(), i);
    }
}

/// Recording a fact again changes nothing. As `WorkspaceGraph::add_relation`
/// is exactly `relate_model`, calling it twice with the same source, target
/// and fact leaves the workspace as calling it once.
pub proof fn lemma_relate_idempotent(w: Model, source: usize, target: usize, r: Relation)
    ensures
        relate_model(relate_model(w, source, target, r), source, target, r) == relate_model(w, source, target, r),
{
    let after = relate_model(w, source, target, r);
    if !recorded(w.edges, source, r, target) {
        assert(after.edges[w.edges.len() as int] == (Edge { source, relation: r, target }));
    }
}

/// Two calls of `WorkspaceGraph::intern` (or `intern_call_item`) with the
/// same name location: whatever node each offers, the second returns the
/// index that the first returned and leaves the model as the first left it.
pub proof fn lemma_intern_twice(
    before: Model,
    middle: Model,
    after: Model,
    key: Key,
    first: NodeView,
    second: NodeView,
    i: usize,
    j: usize,
)
    requires
        (middle, i) == intern_model(before, key, first),
        (after, j) == intern_model(middle, key, second),
    ensures
        after == middle,
        j == i,
{
    lemma_intern_idempotent(before, key, first, second);
}

/// Two calls of `WorkspaceGraph::add_relation` with the same source, target
/// and fact leave the model as one call does.
pub proof fn lemma_add_relation_twice(before: Model, middle: Model, after: Model, source: usize, target: usize, r: Relation)
    requires
        middle == relate_model(before, source, target, r),
        after == relate_model(middle, source, target, r),
    ensures
        after == middle,
{
    lemma_relate_idempotent(before, source, target, r);
}

/// Maps a URI to a node, replacing an earlier entry for it.
pub open spec fn insert_file(files: Seq<(Seq<char>, usize)>, uri: Seq<char>, node: usize) -> Seq<
    (Seq<char>, usize),
> {
    match first_where(entry_for(files, uri), files.len()) {
        Some(i) => files.update(i, (uri, node)),
        None => files.push((uri, node)),
    }
}

/// The number of line feeds in a text.
pub open spec fn newline_count(s: Seq<char>) -> nat
    decreases s.len(),
{
    if s.len() == 0 {
        0
    } else {
        newline_count(s.drop_last()) + if s.last() == '\n' {
            1nat
        } else {
            0nat
        }
    }
}

/// The text after the last line feed (all of it where there is none).
pub open spec fn last_line(s: Seq<char>) -> Seq<char>
    decreases s.len(),
{
    if s.len() == 0 {
        s
    } else if s.last() == '\n' {
        Seq::empty()
    } else {
        last_line(s.drop_last()).push(s.last())
    }
}

/// The number of UTF-16 code units of a text.
pub open spec fn utf16_len(s: Seq<char>) -> nat
    decreases s.len(),
{
    if s.len() == 0 {
        0
    } else {
        utf16_len(s.drop_last()) + if (s.last() as int) >= 0x10000 {
            2nat
        } else {
            1nat
        }
    }
}

/// The range of a whole document: from the start to the end of its last
/// line, counts taken modulo 2^32 as the protocol's `u32` fields hold them.
pub open spec fn whole_range(text: Seq<char>) -> Range {
    Range {
        start: Position { line: 0, character: 0 },
        end: Position {
            line: (newline_count(text) % 0x1_0000_0000) as u32,
            character: (utf16_len(last_line(text)) % 0x1_0000_0000) as u32,
        },
    }
}

/// The range of a whole document.
pub fn document_range(text: &str) -> (r: Range)
    ensures
        r == whole_range(text@),
{
    let mut line: u32 = 0;
    let mut character: u32 = 0;
    for c in it: text.chars()
        invariant
            it.seq() == text@,
            line as int == newline_count(it.seq().take(it.index() as int)) % 0x1_0000_0000,
            character as int == utf16_len(last_line(it.seq().take(it.index() as int))) % 0x1_0000_0000,
    {
        let ghost prefix = it.seq().take(it.index() as int);
        assert(it.seq().take(it.index() + 1).drop_last() =~= prefix);
        if c == '\n' {
            line = if line == u32::MAX { 0 } else { line + 1 };
            character = 0;
        } else {
            let width: u32 = if c >= '\u{10000}' { 2 } else { 1 };
            character = if character > u32::MAX - width { character - (u32::MAX - width) - 1 } else { character + width };
        }
        proof {
            vstd::arithmetic::div_mod::lemma_add_mod_noop(newline_count(prefix) as int, 1, 0x1_0000_0000);
            vstd::arithmetic::div_mod::lemma_add_mod_noop(utf16_len(last_line(prefix)) as int, 1, 0x1_0000_0000);
            vstd::arithmetic::div_mod::lemma_add_mod_noop(utf16_len(last_line(prefix)) as int, 2, 0x1_0000_0000);
            vstd::arithmetic::div_mod::lemma_small_mod(1, 0x1_0000_0000);
            vstd::arithmetic::div_mod::lemma_small_mod(2, 0x1_0000_0000);
            let next = it.seq().take(it.index() + 1);
            if c != '\n' {
                assert(last_line(next).drop_last() =~= last_line(prefix));
            }
        }
    }
    assert(text@.take(text@.len() as int) =~= text@);
    Range { start: Position { line: 0, character: 0 }, end: Position { line, character } }
}

/// Whether two texts are the same.
pub fn str_equal(a: &str, b: &str) -> (r: bool)
    ensures
        r == (a@ == b@),
{
    let x = crate::text::chars_of(a);
    let y = crate::text::chars_of(b);
    proof {
        crate::text::lemma_chars_order_equal(x@, y@);
    }
    crate::text::compare_chars(&x, &y) == 0
}

/// Directories that are not searched for source files: version control,
/// dependency and build output directories.
pub open spec fn ignored_name(name: Seq<char>) -> bool {
    ||| name == ".git"@
    ||| name == ".hg"@
    ||| name == ".svn"@
    ||| name == ".zig-cache"@
    ||| name == "node_modules"@
    ||| name == "target"@
    ||| name == "zig-cache"@
    ||| name == "zig-out"@
}

/// Whether a directory, by its name, is left out of the search for source
/// files.
pub fn ignored_directory(name: &str) -> (r: bool)
    ensures
        r == ignored_name(name@),
{
    str_equal(name, ".git") || str_equal(name, ".hg") || str_equal(name, ".svn") || str_equal(name, ".zig-cache")
        || str_equal(name, "node_modules") || str_equal(name, "target") || str_equal(name, "zig-cache")
        || str_equal(name, "zig-out")
}

/// Whether two locations are the same.
pub fn same_location(a: &Location, b: &Location) -> (r: bool)
    ensures
        r == (location_key(*a) == location_key(*b)),
{
    a.uri == b.uri && a.range == b.range
}

/// A copy of a location.
pub fn copy_location(l: &Location) -> (c: Location)
    ensures
        c.uri@ == l.uri@,
        c.range == l.range,
{
    Location { uri: l.uri.clone(), range: l.range }
}

/// The location of a call hierarchy item's name.
pub fn item_selection(item: &CallItem) -> (l: Location)
    ensures
        location_key(l) == item_key(*item),
{
    Location { uri: item.uri.clone(), range: item.selection_range }
}

/// Functions, methods and constructors.
pub open spec fn callable_kind(k: NodeKind) -> bool {
    k == NodeKind::Function || k == NodeKind::Method || k == NodeKind::Constructor
}

/// Fields and properties.
pub open spec fn field_kind(k: NodeKind) -> bool {
    k == NodeKind::Field || k == NodeKind::Property
}

/// Fields, properties, variables and constants.
pub open spec fn state_kind(k: NodeKind) -> bool {
    field_kind(k) || k == NodeKind::Variable || k == NodeKind::Constant
}

/// Whether a kind is callable: a function, method or constructor.
pub fn is_callable(kind: NodeKind) -> (r: bool)
    ensures
        r == callable_kind(kind),
{
    kind == NodeKind::Function || kind == NodeKind::Method || kind == NodeKind::Constructor
}

/// Whether a kind is a field or property.
pub fn is_field(kind: NodeKind) -> (r: bool)
    ensures
        r == field_kind(kind),
{
    kind == NodeKind::Field || kind == NodeKind::Property
}

/// Whether a kind holds state: a field, property, variable or constant.
pub fn is_state(kind: NodeKind) -> (r: bool)
    ensures
        r == state_kind(kind),
{
    is_field(kind) || kind == NodeKind::Variable || kind == NodeKind::Constant
}

/// The number of symbols of a tree.
pub open spec fn symbol_count(s: DocumentSymbol) -> nat
    decreases s,
{
    1 + match s.children {
        Some(children) => forest_count(children@),
        None => 0,
    }
}

/// The number of symbols of a forest.
pub open spec fn forest_count(symbols: Seq<DocumentSymbol>) -> nat
    decreases symbols,
{
    if symbols.len() == 0 {
        0
    } else {
        forest_count(symbols.drop_last()) + symbol_count(symbols.last())
    }
}

/// What a symbol adds below `parent`: its node (unless it is a variable or
/// constant inside a callable), contained in `parent`; its entry among the
/// callables or the state symbols; then its children, below its node or,
/// for a local, below `parent`.
pub open spec fn nest_symbol(w: Model, uri: Seq<char>, parent: usize, inside: bool, s: DocumentSymbol) -> Model
    decreases s,
{
    let callable = callable_kind(s.kind);
    let local = inside && state_kind(s.kind) && !field_kind(s.kind);
    let key = (uri, s.selection_range);
    let interned = intern_model(w, key, (s.name@, s.kind, uri, s.range));
    let node = interned.1;
    let related = relate_model(interned.0, parent, node, Relation::Contains);
    let indexed = if callable {
        Model {
            callables: related.callables.push((node, key)),
            scopes: related.scopes.push((uri, node, s.range)),
            ..related
        }
    } else if field_kind(s.kind) || (state_kind(s.kind) && !inside) {
        Model { states: related.states.push((node, key)), ..related }
    } else {
        related
    };
    let after = if local { w } else { indexed };
    let next_parent = if local { parent } else { node };
    match s.children {
        Some(children) => nest_forest(after, uri, next_parent, inside || callable, children@),
        None => after,
    }
}

/// What a forest of symbols adds below `parent`, symbol by symbol.
pub open spec fn nest_forest(w: Model, uri: Seq<char>, parent: usize, inside: bool, symbols: Seq<DocumentSymbol>) -> Model
    decreases symbols,
{
    if symbols.len() == 0 {
        w
    } else {
        nest_symbol(nest_forest(w, uri, parent, inside, symbols.drop_last()), uri, parent, inside, symbols.last())
    }
}

/// No edge of `edges` records the fact `r`.
pub open spec fn lacks(edges: Seq<Edge>, r: Relation) -> bool {
    forall|k: int| 0 <= k < edges.len() ==> (#[trigger] edges[k]).relation != r
}

/// Recording a fact of one kind adds no fact of another.
pub proof fn lemma_relate_lacks(w: Model, source: usize, target: usize, recorded_fact: Relation, r: Relation)
    requires
        lacks(w.edges, r),
        recorded_fact != r,
    ensures
        lacks(relate_model(w, source, target, recorded_fact).edges, r),
{
    let after = relate_model(w, source, target, recorded_fact).edges;
    assert forall|k: int| 0 <= k < after.len() implies (#[trigger] after[k]).relation != r by {
        if k < w.edges.len() {
            assert(after[k] == w.edges[k]);
        }
    }
}

/// Adding a symbol records no fact but containment.
pub proof fn lemma_nest_symbol_lacks(w: Model, uri: Seq<char>, parent: usize, inside: bool, s: DocumentSymbol, r: Relation)
    requires
        lacks(w.edges, r),
        r != Relation::Contains,
    ensures
        lacks(nest_symbol(w, uri, parent, inside, s).edges, r),
    decreases s,
{
    let callable = callable_kind(s.kind);
    let local = inside && state_kind(s.kind) && !field_kind(s.kind);
    let key = (uri, s.selection_range);
    let interned = intern_model(w, key, (s.name@, s.kind, uri, s.range));
    let related = relate_model(interned.0, parent, interned.1, Relation::Contains);
    lemma_relate_lacks(interned.0, parent, interned.1, Relation::Contains, r);
    let indexed = if callable {
        Model {
            callables: related.callables.push((interned.1, key)),
            scopes: related.scopes.push((uri, interned.1, s.range)),
            ..related
        }
    } else if field_kind(s.kind) || (state_kind(s.kind) && !inside) {
        Model { states: related.states.push((interned.1, key)), ..related }
    } else {
        related
    };
    let after = if local { w } else { indexed };
    let next_parent = if local { parent } else { interned.1 };
    if let Some(children) = s.children {
        lemma_nest_forest_lacks(after, uri, next_parent, inside || callable, children@, r);
    }
}

/// Adding symbols records no fact but containment.
pub proof fn lemma_nest_forest_lacks(w: Model, uri: Seq<char>, parent: usize, inside: bool, symbols: Seq<DocumentSymbol>, r: Relation)
    requires
        lacks(w.edges, r),
        r != Relation::Contains,
    ensures
        lacks(nest_forest(w, uri, parent, inside, symbols).edges, r),
    decreases symbols,
{
    if symbols.len() > 0 {
        lemma_nest_forest_lacks(w, uri, parent, inside, symbols.drop_last(), r);
        lemma_nest_symbol_lacks(nest_forest(w, uri, parent, inside, symbols.drop_last()), uri, parent, inside, symbols.last(), r);
    }
}

/// Recording calls records no other fact.
pub proof fn lemma_calls_lack(w: Model, caller: usize, callees: Seq<CallItem>, r: Relation)
    requires
        lacks(w.edges, r),
        r != Relation::Calls,
    ensures
        lacks(calls_model(w, caller, callees).edges, r),
    decreases callees.len(),
{
    if callees.len() > 0 {
        lemma_calls_lack(w, caller, callees.drop_last(), r);
        let before = calls_model(w, caller, callees.drop_last());
        let interned = intern_model(before, item_key(callees.last()), item_node(callees.last()));
        lemma_relate_lacks(interned.0, caller, interned.1, Relation::Calls, r);
    }
}

/// Preparing call hierarchy items records no fact.
pub proof fn lemma_prepare_keeps_edges(w: Model, prepared: Seq<Key>, items: Seq<CallItem>)
    ensures
        prepare_model(w, prepared, items).0.edges == w.edges,
    decreases items.len(),
{
    if items.len() > 0 {
        lemma_prepare_keeps_edges(w, prepared, items.drop_last());
    }
}

/// Highlights record no `calls` or `contains` fact.
pub proof fn lemma_accesses_lack(
    w: Model,
    uri: Seq<char>,
    references: Seq<Range>,
    highlights: Seq<Highlight>,
    state: usize,
    r: Relation,
)
    requires
        lacks(w.edges, r),
        r != Relation::Reads,
        r != Relation::Writes,
    ensures
        lacks(accesses_model(w, uri, references, highlights, state).edges, r),
    decreases highlights.len(),
{
    if highlights.len() > 0 {
        lemma_accesses_lack(w, uri, references, highlights.drop_last(), state, r);
        let before = accesses_model(w, uri, references, highlights.drop_last(), state);
        let h = highlights.last();
        if references.contains(h.range) {
            if let Some(fact) = access_relation(h.kind) {
                if let Some(source) = enclosing(before, uri, h.range.start) {
                    lemma_relate_lacks(before, source, state, fact, r);
                }
            }
        }
    }
}

/// `before` is a prefix of `after`.
pub open spec fn extends<A>(before: Seq<A>, after: Seq<A>) -> bool {
    before.len() <= after.len() && forall|i: int| 0 <= i < before.len() ==> #[trigger] after[i] == before[i]
}

/// Adding a symbol keeps the state symbols indexed before it.
pub proof fn lemma_nest_symbol_keeps_states(w: Model, uri: Seq<char>, parent: usize, inside: bool, s: DocumentSymbol)
    ensures
        extends(w.states, nest_symbol(w, uri, parent, inside, s).states),
    decreases s,
{
    let callable = callable_kind(s.kind);
    let local = inside && state_kind(s.kind) && !field_kind(s.kind);
    let key = (uri, s.selection_range);
    let interned = intern_model(w, key, (s.name@, s.kind, uri, s.range));
    let related = relate_model(interned.0, parent, interned.1, Relation::Contains);
    let indexed = if callable {
        Model {
            callables: related.callables.push((interned.1, key)),
            scopes: related.scopes.push((uri, interned.1, s.range)),
            ..related
        }
    } else if field_kind(s.kind) || (state_kind(s.kind) && !inside) {
        Model { states: related.states.push((interned.1, key)), ..related }
    } else {
        related
    };
    let after = if local { w } else { indexed };
    let next_parent = if local { parent } else { interned.1 };
    assert(extends(w.states, after.states));
    if let Some(children) = s.children {
        lemma_nest_forest_keeps_states(after, uri, next_parent, inside || callable, children@);
        let last = nest_forest(after, uri, next_parent, inside || callable, children@);
        assert forall|i: int| 0 <= i < w.states.len() implies #[trigger] last.states[i] == w.states[i] by {
            assert(last.states[i] == after.states[i]);
        }
    }
}

/// Adding symbols keeps the state symbols indexed before them.
pub proof fn lemma_nest_forest_keeps_states(w: Model, uri: Seq<char>, parent: usize, inside: bool, symbols: Seq<DocumentSymbol>)
    ensures
        extends(w.states, nest_forest(w, uri, parent, inside, symbols).states),
    decreases symbols,
{
    if symbols.len() > 0 {
        let before = nest_forest(w, uri, parent, inside, symbols.drop_last());
        lemma_nest_forest_keeps_states(w, uri, parent, inside, symbols.drop_last());
        lemma_nest_symbol_keeps_states(before, uri, parent, inside, symbols.last());
        let last = nest_symbol(before, uri, parent, inside, symbols.last());
        assert forall|i: int| 0 <= i < w.states.len() implies #[trigger] last.states[i] == w.states[i] by {
            assert(last.states[i] == before.states[i]);
        }
    }
}

/// A field, or a variable, constant or property outside any callable (state
/// such as statics and globals), is indexed among the state symbols with its
/// node and the location of its name, so that its reads and writes are
/// asked for.
pub proof fn lemma_state_symbols_indexed(w: Model, uri: Seq<char>, parent: usize, inside: bool, s: DocumentSymbol)
    requires
        field_kind(s.kind) || (state_kind(s.kind) && !inside),
    ensures
        nest_symbol(w, uri, parent, inside, s).states.contains(
            (intern_model(w, (uri, s.selection_range), (s.name@, s.kind, uri, s.range)).1, (uri, s.selection_range)),
        ),
{
    let key = (uri, s.selection_range);
    let interned = intern_model(w, key, (s.name@, s.kind, uri, s.range));
    let entry = (interned.1, key);
    let related = relate_model(interned.0, parent, interned.1, Relation::Contains);
    let callable = callable_kind(s.kind);
    assert(!callable);
    let indexed = Model { states: related.states.push(entry), ..related };
    assert(indexed.states[indexed.states.len() - 1] == entry);
    match s.children {
        Some(children) => {
            lemma_nest_forest_keeps_states(indexed, uri, interned.1, inside || callable, children@);
            let last = nest_forest(indexed, uri, interned.1, inside || callable, children@);
            assert(last.states[indexed.states.len() - 1] == entry);
            assert(last == nest_symbol(w, uri, parent, inside, s));
        },
        None => {},
    }
}

/// Adding a symbol only adds nodes.
pub proof fn lemma_nest_symbol_grows(w: Model, uri: Seq<char>, parent: usize, inside: bool, s: DocumentSymbol)
    ensures
        nest_symbol(w, uri, parent, inside, s).nodes.len() >= w.nodes.len(),
    decreases s,
{
    let callable = callable_kind(s.kind);
    let local = inside && state_kind(s.kind) && !field_kind(s.kind);
    let key = (uri, s.selection_range);
    let interned = intern_model(w, key, (s.name@, s.kind, uri, s.range));
    let related = relate_model(interned.0, parent, interned.1, Relation::Contains);
    let indexed = if callable {
        Model {
            callables: related.callables.push((interned.1, key)),
            scopes: related.scopes.push((uri, interned.1, s.range)),
            ..related
        }
    } else if field_kind(s.kind) || (state_kind(s.kind) && !inside) {
        Model { states: related.states.push((interned.1, key)), ..related }
    } else {
        related
    };
    let after = if local { w } else { indexed };
    let next_parent = if local { parent } else { interned.1 };
    if let Some(children) = s.children {
        lemma_nest_forest_grows(after, uri, next_parent, inside || callable, children@);
    }
}

/// Adding symbols only adds nodes.
pub proof fn lemma_nest_forest_grows(w: Model, uri: Seq<char>, parent: usize, inside: bool, symbols: Seq<DocumentSymbol>)
    ensures
        nest_forest(w, uri, parent, inside, symbols).nodes.len() >= w.nodes.len(),
    decreases symbols,
{
    if symbols.len() > 0 {
        lemma_nest_forest_grows(w, uri, parent, inside, symbols.drop_last());
        lemma_nest_symbol_grows(nest_forest(w, uri, parent, inside, symbols.drop_last()), uri, parent, inside, symbols.last());
    }
}

/// The model grew by at most `k` nodes and `k` edges.
pub open spec fn grew_within(before: Model, after: Model, k: nat) -> bool {
    &&& after.nodes.len() <= before.nodes.len() + k
    &&& after.edges.len() <= before.edges.len() + k
    &&& before.nodes.len() <= after.nodes.len()
}

/// The count of a prefix of a forest is at most the count of the forest.
proof fn lemma_forest_prefix(symbols: Seq<DocumentSymbol>, i: int)
    requires
        0 <= i <= symbols.len(),
    ensures
        forest_count(symbols.take(i)) <= forest_count(symbols),
        i < symbols.len() ==> forest_count(symbols.take(i + 1)) == forest_count(symbols.take(i))
            + symbol_count(symbols[i]),
    decreases symbols.len(),
{
    if i < symbols.len() {
        assert(symbols.take(i + 1).drop_last() =~= symbols.take(i));
        if i < symbols.len() - 1 {
            lemma_forest_prefix(symbols.drop_last(), i);
            assert(symbols.drop_last().take(i) =~= symbols.take(i));
        } else {
            assert(symbols.take(i) =~= symbols.drop_last());
        }
    } else {
        assert(symbols.take(i) =~= symbols);
    }
}

/// `a` is at or before `b`.
pub open spec fn position_le(a: Position, b: Position) -> bool {
    a.line < b.line || (a.line == b.line && a.character <= b.character)
}

/// A range holds a position: from its start, up to but not including its end.
pub open spec fn holds(range: Range, position: Position) -> bool {
    position_le(range.start, position) && !position_le(range.end, position)
}

/// A range lies within another.
pub open spec fn within(outer: Range, inner: Range) -> bool {
    position_le(outer.start, inner.start) && position_le(inner.end, outer.end)
}

/// Whether `a` is at or before `b`.
pub fn position_at_or_before(a: Position, b: Position) -> (r: bool)
    ensures
        r == position_le(a, b),
{
    a.line < b.line || (a.line == b.line && a.character <= b.character)
}

/// Whether a range holds a position (its end excluded).
pub fn contains(range: Range, position: Position) -> (r: bool)
    ensures
        r == holds(range, position),
{
    position_at_or_before(range.start, position) && !position_at_or_before(range.end, position)
}

/// Whether the range `outer` encloses the range `inner`.
pub fn encloses(outer: Range, inner: Range) -> (r: bool)
    ensures
        r == within(outer, inner),
{
    position_at_or_before(outer.start, inner.start) && position_at_or_before(inner.end, outer.end)
}

/// A scope of document `uri` that holds `position`.
pub open spec fn scope_at(uri: Seq<char>, position: Position) -> spec_fn((Seq<char>, usize, Range)) -> bool {
    |s: (Seq<char>, usize, Range)| s.0 == uri && holds(s.2, position)
}

/// Of a non-empty list of scopes, the one kept by going through them in
/// order and taking each that lies within the one kept so far.
pub open spec fn innermost(scopes: Seq<(Seq<char>, usize, Range)>) -> (Seq<char>, usize, Range)
    decreases scopes.len(),
{
    if scopes.len() <= 1 {
        scopes[0]
    } else {
        let kept = innermost(scopes.drop_last());
        if within(kept.2, scopes.last().2) {
            scopes.last()
        } else {
            kept
        }
    }
}

/// The unit that encloses a position of a document: its innermost callable
/// there, else its file node.
pub open spec fn enclosing(w: Model, uri: Seq<char>, position: Position) -> Option<usize> {
    let candidates = w.scopes.filter(scope_at(uri, position));
    if candidates.len() > 0 {
        Some(innermost(candidates).1)
    } else {
        find(w.files, uri)
    }
}

/// The fact that a highlight of a given access records.
pub open spec fn access_relation(kind: Option<AccessKind>) -> Option<Relation> {
    match kind {
        Some(AccessKind::Read) => Some(Relation::Reads),
        Some(AccessKind::Write) => Some(Relation::Writes),
        _ => None,
    }
}

/// The fact that a highlight records, if any.
pub fn relation_of_access(kind: Option<AccessKind>) -> (r: Option<Relation>)
    ensures
        r == access_relation(kind),
{
    match kind {
        Some(AccessKind::Read) => Some(Relation::Reads),
        Some(AccessKind::Write) => Some(Relation::Writes),
        _ => None,
    }
}

/// What highlights of document `uri` add for the state node `state`: for
/// each highlight at one of the references, a read or write fact from the
/// unit that encloses its start.
pub open spec fn accesses_model(
    w: Model,
    uri: Seq<char>,
    references: Seq<Range>,
    highlights: Seq<Highlight>,
    state: usize,
) -> Model
    decreases highlights.len(),
{
    if highlights.len() == 0 {
        w
    } else {
        let before = accesses_model(w, uri, references, highlights.drop_last(), state);
        let h = highlights.last();
        if !references.contains(h.range) {
            before
        } else {
            match access_relation(h.kind) {
                None => before,
                Some(r) => match enclosing(before, uri, h.range.start) {
                    Some(source) => relate_model(before, source, state, r),
                    None => before,
                },
            }
        }
    }
}

/// Symbols as plain values: node and the location of the name.
pub open spec fn symbol_keys(symbols: Seq<IndexedSymbol>) -> Seq<(usize, Key)> {
    symbols.map_values(|s: IndexedSymbol| (s.node, location_key(s.selection)))
}

/// Locations as plain values.
pub open spec fn keys(locations: Seq<Location>) -> Seq<Key> {
    locations.map_values(|l: Location| location_key(l))
}

/// The location of a call hierarchy item's name, as a plain value.
pub open spec fn item_key(item: CallItem) -> Key {
    (item.uri@, item.selection_range)
}

/// The node of a call hierarchy item, as a plain value.
pub open spec fn item_node(item: CallItem) -> NodeView {
    (item.name@, item.kind, item.uri@, item.range)
}

/// Callable `i` of the list is a function or a method.
pub open spec fn probe_at(callables: Seq<(usize, Key)>, nodes: Seq<NodeView>) -> spec_fn(int) -> bool {
    |i: int| nodes[callables[i].0 as int].1 == NodeKind::Function || nodes[callables[i].0 as int].1 == NodeKind::Method
}

/// The order in which the call hierarchy of the callables is prepared: as
/// listed, but with the first function or method swapped to the front, so
/// that the first request, which waits for the server to be ready, asks at
/// a symbol the server can answer for.
pub open spec fn probe_order(callables: Seq<(usize, Key)>, nodes: Seq<NodeView>) -> Seq<(usize, Key)> {
    match first_where(probe_at(callables, nodes), callables.len()) {
        Some(p) => callables.update(0, callables[p]).update(p, callables[0]),
        None => callables,
    }
}

/// What preparing the call hierarchy items `items` adds: each item whose
/// name's location was not prepared before gets its node; with the model,
/// the locations prepared so far and, for each item newly prepared, its
/// position in `items` and its node.
pub open spec fn prepare_model(w: Model, prepared: Seq<Key>, items: Seq<CallItem>) -> (Model, Seq<Key>, Seq<(usize, usize)>)
    decreases items.len(),
{
    if items.len() == 0 {
        (w, prepared, Seq::empty())
    } else {
        let before = prepare_model(w, prepared, items.drop_last());
        let item = items.last();
        if before.1.contains(item_key(item)) {
            before
        } else {
            let interned = intern_model(before.0, item_key(item), item_node(item));
            (
                interned.0,
                before.1.push(item_key(item)),
                before.2.push(((items.len() - 1) as usize, interned.1)),
            )
        }
    }
}

/// What the outgoing calls of `caller` add: a node for each callee (unless
/// its name's location has one) and the fact that `caller` calls it.
pub open spec fn calls_model(w: Model, caller: usize, callees: Seq<CallItem>) -> Model
    decreases callees.len(),
{
    if callees.len() == 0 {
        w
    } else {
        let before = calls_model(w, caller, callees.drop_last());
        let interned = intern_model(before, item_key(callees.last()), item_node(callees.last()));
        relate_model(interned.0, caller, interned.1, Relation::Calls)
    }
}

/// The views of a list of strings.
pub open spec fn string_views(strings: Seq<String>) -> Seq<Seq<char>> {
    strings.map_values(|s: String| s@)
}

/// The documents of `refs` that have a file node, each once, in the order
/// of their first references.
pub open spec fn known_uris(files: Seq<(Seq<char>, usize)>, refs: Seq<Location>) -> Seq<Seq<char>>
    decreases refs.len(),
{
    if refs.len() == 0 {
        Seq::empty()
    } else {
        let before = known_uris(files, refs.drop_last());
        let u = refs.last().uri@;
        if find(files, u) is Some && !before.contains(u) {
            before.push(u)
        } else {
            before
        }
    }
}

/// The ranges of the references of `refs` in document `u`, each once, in
/// the order they first come.
pub open spec fn ranges_in(refs: Seq<Location>, u: Seq<char>) -> Seq<Range>
    decreases refs.len(),
{
    if refs.len() == 0 {
        Seq::empty()
    } else {
        let before = ranges_in(refs.drop_last(), u);
        let r = refs.last();
        if r.uri@ == u && !before.contains(r.range) {
            before.push(r.range)
        } else {
            before
        }
    }
}

/// The references of each known document: the document and its ranges.
pub open spec fn grouping(files: Seq<(Seq<char>, usize)>, refs: Seq<Location>) -> Seq<(Seq<char>, Seq<Range>)> {
    known_uris(files, refs).map_values(|u: Seq<char>| (u, ranges_in(refs, u)))
}

/// A group of references as plain values.
pub open spec fn group_views(groups: Seq<ReferenceGroup>) -> Seq<(Seq<char>, Seq<Range>)> {
    groups.map_values(|g: ReferenceGroup| (g.uri@, g.ranges@))
}

/// Every reference in a document with a file node puts that document among
/// the grouped documents, and its range among that document's ranges; so
/// the highlights of every such document are asked for.
pub proof fn lemma_every_known_reference_grouped(files: Seq<(Seq<char>, usize)>, refs: Seq<Location>, k: int)
    requires
        0 <= k < refs.len(),
        find(files, refs[k].uri@) is Some,
    ensures
        known_uris(files, refs).contains(refs[k].uri@),
        ranges_in(refs, refs[k].uri@).contains(refs[k].range),
    decreases refs.len(),
{
    let u = refs[k].uri@;
    let rest = refs.drop_last();
    let before = known_uris(files, rest);
    let ranges = ranges_in(rest, u);
    if k < refs.len() - 1 {
        assert(rest[k] == refs[k]);
        lemma_every_known_reference_grouped(files, rest, k);
        let i = choose|i: int| 0 <= i < before.len() && before[i] == u;
        assert(known_uris(files, refs)[i] == u);
        let j = choose|j: int| 0 <= j < ranges.len() && ranges[j] == refs[k].range;
        assert(ranges_in(refs, u)[j] == refs[k].range);
    } else {
        assert(refs.last() == refs[k]);
        if before.contains(u) {
            let i = choose|i: int| 0 <= i < before.len() && before[i] == u;
            assert(known_uris(files, refs)[i] == u);
        } else {
            assert(known_uris(files, refs)[before.len() as int] == u);
        }
        if ranges.contains(refs[k].range) {
            let j = choose|j: int| 0 <= j < ranges.len() && ranges[j] == refs[k].range;
            assert(ranges_in(refs, u)[j] == refs[k].range);
        } else {
            assert(ranges_in(refs, u)[ranges.len() as int] == refs[k].range);
        }
    }
}

/// Every grouped document has a file node and is referenced, and no
/// document is grouped twice.
pub proof fn lemma_grouped_documents_known(files: Seq<(Seq<char>, usize)>, refs: Seq<Location>)
    ensures
        known_uris(files, refs).no_duplicates(),
        forall|i: int|
            0 <= i < known_uris(files, refs).len() ==> find(files, #[trigger] known_uris(files, refs)[i]) is Some
                && exists|k: int| 0 <= k < refs.len() && refs[k].uri@ == known_uris(files, refs)[i],
    decreases refs.len(),
{
    if refs.len() > 0 {
        let rest = refs.drop_last();
        lemma_grouped_documents_known(files, rest);
        let before = known_uris(files, rest);
        let after = known_uris(files, refs);
        assert forall|i: int| 0 <= i < after.len() implies find(files, #[trigger] after[i]) is Some
            && exists|k: int| 0 <= k < refs.len() && refs[k].uri@ == after[i] by {
            if i < before.len() {
                assert(after[i] == before[i]);
                let k = choose|k: int| 0 <= k < rest.len() && rest[k].uri@ == before[i];
                assert(refs[k] == rest[k]);
            } else {
                assert(refs[refs.len() - 1] == refs.last());
            }
        }
    }
}

/// Every document that `known_uris` lists has at least one range.
pub proof fn lemma_groups_not_empty(files: Seq<(Seq<char>, usize)>, refs: Seq<Location>, u: Seq<char>)
    requires
        known_uris(files, refs).contains(u),
    ensures
        ranges_in(refs, u).len() > 0,
    decreases refs.len(),
{
    let before = known_uris(files, refs.drop_last());
    if before.contains(u) {
        lemma_groups_not_empty(files, refs.drop_last(), u);
        lemma_ranges_grow(refs, u);
    } else {
        assert(refs.last().uri@ == u) by {
            if !(find(files, refs.last().uri@) is Some && !before.contains(refs.last().uri@)) {
                assert(known_uris(files, refs) == before);
            } else {
                let k = choose|k: int| 0 <= k < known_uris(files, refs).len() && known_uris(files, refs)[k] == u;
                if k < before.len() {
                    assert(before[k] == u);
                }
            }
        }
        if !ranges_in(refs.drop_last(), u).contains(refs.last().range) {
        } else {
            let t = choose|t: int| 0 <= t < ranges_in(refs.drop_last(), u).len() && ranges_in(refs.drop_last(), u)[t] == refs.last().range;
        }
    }
}

/// The ranges of a document only grow as references are added.
proof fn lemma_ranges_grow(refs: Seq<Location>, u: Seq<char>)
    requires
        refs.len() > 0,
    ensures
        ranges_in(refs.drop_last(), u).len() <= ranges_in(refs, u).len(),
{
}

/// The references of one document: its URI and the distinct ranges.
pub struct ReferenceGroup {
    pub uri: String,
    pub ranges: Vec<Range>,
}

/// The scope kept by `innermost` is one of the list.
pub proof fn lemma_innermost_member(scopes: Seq<(Seq<char>, usize, Range)>)
    requires
        scopes.len() > 0,
    ensures
        exists|k: int| 0 <= k < scopes.len() && scopes[k] == innermost(scopes),
    decreases scopes.len(),
{
    if scopes.len() > 1 {
        lemma_innermost_member(scopes.drop_last());
        let k = choose|k: int| 0 <= k < scopes.drop_last().len() && scopes.drop_last()[k] == innermost(scopes.drop_last());
        assert(scopes[k] == scopes.drop_last()[k]);
        assert(scopes[scopes.len() - 1] == scopes.last());
    } else {
        assert(scopes[0] == innermost(scopes));
    }
}

/// The workspace graph and the indices that building it needs.
pub struct WorkspaceGraph {
    graph: ProgramGraph,
    selections: Vec<(Location, usize)>,
    files: Vec<(String, usize)>,
    scopes: Vec<Scope>,
    callables: Vec<IndexedSymbol>,
    state_symbols: Vec<IndexedSymbol>,
}

impl WorkspaceGraph {
    /// The state of the workspace graph.
    pub closed spec fn model(&self) -> Model {
        Model {
            nodes: node_views(graph_nodes(self.graph)),
            edges: graph_edges(self.graph),
            selections: self.selections@.map_values(|p: (Location, usize)| (location_key(p.0), p.1)),
            files: self.files@.map_values(|p: (String, usize)| (p.0@, p.1)),
            scopes: self.scopes@.map_values(|s: Scope| (s.uri@, s.node, s.range)),
            callables: symbol_keys(self.callables@),
            states: symbol_keys(self.state_symbols@),
        }
    }

    /// The graph built so far.
    pub closed spec fn graph_of(&self) -> ProgramGraph {
        self.graph
    }

    /// The model describes the graph.
    pub proof fn lemma_model_graph(&self)
        ensures
            self.model().nodes == node_views(graph_nodes(self.graph_of())),
            self.model().edges == graph_edges(self.graph_of()),
    {
    }

    /// An empty workspace graph.
    pub fn new() -> (w: WorkspaceGraph)
        ensures
            w.model() == (Model {
                nodes: Seq::empty(),
                edges: Seq::empty(),
                selections: Seq::empty(),
                files: Seq::empty(),
                scopes: Seq::empty(),
                callables: Seq::empty(),
                states: Seq::empty(),
            }),
    {
        let w = WorkspaceGraph {
            graph: new_graph(),
            selections: Vec::new(),
            files: Vec::new(),
            scopes: Vec::new(),
            callables: Vec::new(),
            state_symbols: Vec::new(),
        };
        assert(w.model().nodes =~= Seq::<NodeView>::empty());
        assert(w.model().selections =~= Seq::<(Key, usize)>::empty());
        assert(w.model().files =~= Seq::<(Seq<char>, usize)>::empty());
        assert(w.model().scopes =~= Seq::<(Seq<char>, usize, Range)>::empty());
        assert(w.model().callables =~= Seq::<(usize, Key)>::empty());
        assert(w.model().states =~= Seq::<(usize, Key)>::empty());
        w
    }

    /// The model holds node indices of the graph only.
    pub open spec fn wf(&self) -> bool {
        &&& model_wf(self.model())
    }

    /// The node of the symbol whose name is at `selection`, if there is one.
    pub fn find_selection(&self, selection: &Location) -> (r: Option<usize>)
        ensures
            r == find(self.model().selections, location_key(*selection)),
    {
        let ghost pairs = self.model().selections;
        let mut i: usize = 0;
        while i < self.selections.len()
            invariant
                pairs == self.model().selections,
                i <= self.selections.len(),
                forall|j: int| 0 <= j < i ==> !#[trigger] entry_for(pairs, location_key(*selection))(j),
            decreases self.selections.len() - i,
        {
            assert(pairs[i as int] == (location_key(self.selections@[i as int].0), self.selections@[i as int].1));
            if same_location(&self.selections[i].0, selection) {
                proof {
                    lemma_first_where_is(entry_for(pairs, location_key(*selection)), pairs.len(), i as int);
                }
                return Some(self.selections[i].1);
            }
            i = i + 1;
        }
        proof {
            lemma_first_where(entry_for(pairs, location_key(*selection)), pairs.len());
        }
        None
    }

    /// The node of the symbol whose name is at `selection`, added as `node`
    /// where there is none yet.
    pub fn intern(&mut self, selection: Location, node: Node) -> (i: usize)
        requires
            old(self).wf(),
            find(old(self).model().selections, location_key(selection)) is None ==> old(self).model().nodes.len()
                < 0xFFFF_FFFF,
        ensures
            final(self).wf(),
            (final(self).model(), i) == intern_model(old(self).model(), location_key(selection), node_view(node)),
            i < final(self).model().nodes.len(),
    {
        match self.find_selection(&selection) {
            Some(i) => {
                proof {
                    lemma_first_where(
                        entry_for(old(self).model().selections, location_key(selection)),
                        old(self).model().selections.len(),
                    );
                }
                i
            },
            None => {
                let ghost view = node_view(node);
                let index = add_node(&mut self.graph, node);
                self.selections.push((selection, index));
                assert(self.model().nodes =~= old(self).model().nodes.push(view));
                assert(self.model().selections =~= old(self).model().selections.push((location_key(selection), index)));
                assert(self.model() == intern_model(old(self).model(), location_key(selection), view).0);
                proof {
                    let before = old(self).model().selections;
                    lemma_first_where(entry_for(before, location_key(selection)), before.len());
                    assert forall|i: int, j: int|
                        0 <= i < j < self.model().selections.len() implies (#[trigger] self.model().selections[i]).0
                            != (#[trigger] self.model().selections[j]).0 by {
                        if j == before.len() {
                            assert(!entry_for(before, location_key(selection))(i));
                        } else {
                            assert(before[i] == self.model().selections[i] && before[j] == self.model().selections[j]);
                        }
                    }
                }
                index
            },
        }
    }

    /// Whether a fact is recorded between two nodes.
    pub fn has_relation(&self, source: usize, target: usize, relation: Relation) -> (r: bool)
        requires
            source < self.model().nodes.len(),
            target < self.model().nodes.len(),
        ensures
            r == recorded(self.model().edges, source, relation, target),
    {
        let found = relations_between(&self.graph, source, target);
        let mut i: usize = 0;
        while i < found.len()
            invariant
                i <= found.len(),
                forall|r: Relation| #[trigger] found@.contains(r) == recorded(self.model().edges, source, r, target),
                forall|j: int| 0 <= j < i ==> found@[j] != relation,
            decreases found.len() - i,
        {
            if found[i] == relation {
                assert(found@.contains(relation));
                return true;
            }
            i = i + 1;
        }
        assert(!found@.contains(relation));
        false
    }

    /// Records a fact between two nodes unless it is already recorded.
    pub fn add_relation(&mut self, source: usize, target: usize, relation: Relation)
        requires
            old(self).wf(),
            !recorded(old(self).model().edges, source, relation, target) ==> old(self).model().edges.len()
                < 0xFFFF_FFFF,
            source < old(self).model().nodes.len(),
            target < old(self).model().nodes.len(),
        ensures
            final(self).wf(),
            final(self).model() == relate_model(old(self).model(), source, target, relation),
    {
        if self.has_relation(source, target, relation) {
            return;
        }
        add_edge(&mut self.graph, source, target, relation);
        assert(self.model().nodes =~= old(self).model().nodes);
        assert(self.model().edges =~= old(self).model().edges.push(Edge { source, relation, target }));
        assert(self.model() == relate_model(old(self).model(), source, target, relation));
    }

    /// Adds the file node of a document and records it as the document's.
    pub fn add_file(&mut self, document: &SourceDocument)
        requires
            old(self).wf(),
            room(old(self).model(), 1),
        ensures
            final(self).wf(),
            final(self).model() == (Model {
                nodes: old(self).model().nodes.push(
                    (file_node_name(document.uri@), NodeKind::File, document.uri@, whole_range(document.text@)),
                ),
                files: insert_file(old(self).model().files, document.uri@, old(self).model().nodes.len() as usize),
                ..old(self).model()
            }),
    {
        let range = document_range(document.text.as_str());
        let node = Node {
            name: file_name(document.uri.as_str()),
            kind: NodeKind::File,
            location: Location { uri: document.uri.clone(), range },
        };
        let ghost view = node_view(node);
        let index = add_node(&mut self.graph, node);
        assert(self.model().nodes =~= old(self).model().nodes.push(view));
        let ghost files = old(self).model().files;
        assert(files == self.model().files);
        proof {
            lemma_first_where(entry_for(files, document.uri@), files.len());
        }
        match self.file_position(document.uri.as_str()) {
            Some(t) => {
                let entry = (document.uri.clone(), index);
                self.files.set(t, entry);
                assert(self.model().files =~= files.update(t as int, (document.uri@, index)));
                assert(first_where(entry_for(files, document.uri@), files.len()) == Some(t as int));
                assert(self.model().files =~= insert_file(files, document.uri@, index));
            },
            None => {
                let entry = (document.uri.clone(), index);
                self.files.push(entry);
                assert(self.model().files =~= files.push((document.uri@, index)));
                assert(first_where(entry_for(files, document.uri@), files.len()) is None);
                assert(self.model().files =~= insert_file(files, document.uri@, index));
            },
        }
        assert(self.model().files =~= insert_file(files, document.uri@, index));
        assert(self.model() == (Model {
            nodes: old(self).model().nodes.push(view),
            files: insert_file(files, document.uri@, index),
            ..old(self).model()
        }));
        assert forall|i: int, j: int|
            0 <= i < j < self.model().files.len() implies (#[trigger] self.model().files[i]).0
                != (#[trigger] self.model().files[j]).0 by {
            let f = self.model().files;
            if f.len() == files.len() {
                let t = first_where(entry_for(files, document.uri@), files.len()).unwrap();
                if i != t && j != t {
                    assert(files[i] == f[i] && files[j] == f[j]);
                } else if i == t {
                    assert(files[j] == f[j]);
                    assert(files[i].0 == document.uri@);
                } else {
                    assert(files[i] == f[i]);
                    assert(files[j].0 == document.uri@);
                }
            } else {
                if j == files.len() {
                    assert(!entry_for(files, document.uri@)(i));
                } else {
                    assert(files[i] == f[i] && files[j] == f[j]);
                }
            }
        }
        assert forall|i: int| 0 <= i < self.model().files.len() implies (#[trigger] self.model().files[i]).1
            < self.model().nodes.len() by {
            if self.model().files[i].1 != index {
                let j = if i < files.len() { i } else { 0 };
                assert(files[j].1 < old(self).model().nodes.len());
            }
        }
    }

    /// The position of a document's entry among the files.
    fn file_position(&self, uri: &str) -> (r: Option<usize>)
        ensures
            match first_where(entry_for(self.model().files, uri@), self.model().files.len()) {
                Some(i) => r == Some(i as usize),
                None => r is None,
            },
            r matches Some(i) ==> i < self.files.len(),
    {
        let ghost pairs = self.model().files;
        let mut i: usize = 0;
        while i < self.files.len()
            invariant
                pairs == self.model().files,
                i <= self.files.len(),
                forall|j: int| 0 <= j < i ==> !#[trigger] entry_for(pairs, uri@)(j),
            decreases self.files.len() - i,
        {
            assert(pairs[i as int] == (self.files@[i as int].0@, self.files@[i as int].1));
            if str_equal(self.files[i].0.as_str(), uri) {
                proof {
                    lemma_first_where_is(entry_for(pairs, uri@), pairs.len(), i as int);
                }
                return Some(i);
            }
            i = i + 1;
        }
        proof {
            lemma_first_where(entry_for(pairs, uri@), pairs.len());
        }
        None
    }

    /// Adds a symbol and its children below `parent` (see `nest_symbol`).
    pub fn add_symbol(&mut self, uri: &str, parent: usize, inside_callable: bool, symbol: &DocumentSymbol)
        requires
            old(self).wf(),
            parent < old(self).model().nodes.len(),
            room(old(self).model(), symbol_count(*symbol)),
        ensures
            final(self).wf(),
            final(self).model() == nest_symbol(old(self).model(), uri@, parent, inside_callable, *symbol),
            grew_within(old(self).model(), final(self).model(), symbol_count(*symbol)),
        decreases *symbol,
    {
        let callable = is_callable(symbol.kind);
        let local = inside_callable && is_state(symbol.kind) && !is_field(symbol.kind);
        let ghost w = old(self).model();
        let ghost key = (uri@, symbol.selection_range);
        let next_parent = if local {
            parent
        } else {
            let location = Location { uri: uri.to_owned(), range: symbol.range };
            let selection = Location { uri: uri.to_owned(), range: symbol.selection_range };
            let node = self.intern(
                Location { uri: uri.to_owned(), range: symbol.selection_range },
                Node { name: symbol.name.clone(), kind: symbol.kind, location },
            );
            self.add_relation(parent, node, Relation::Contains);
            if callable {
                self.callables.push(IndexedSymbol { node, selection });
                self.scopes.push(Scope { uri: uri.to_owned(), node, range: symbol.range });
            } else if is_field(symbol.kind) || (is_state(symbol.kind) && !inside_callable) {
                self.state_symbols.push(IndexedSymbol { node, selection });
            }
            node
        };
        let ghost after = self.model();
        assert(next_parent < after.nodes.len());
        assert(grew_within(w, after, 1));
        proof {
            let interned = intern_model(w, key, (symbol.name@, symbol.kind, uri@, symbol.range));
            let related = relate_model(interned.0, parent, interned.1, Relation::Contains);
            if !local {
                assert(next_parent == interned.1);
                if callable {
                    assert(after.callables =~= related.callables.push((next_parent, key)));
                    assert(after.scopes =~= related.scopes.push((uri@, next_parent, symbol.range)));
                } else if field_kind(symbol.kind) || (state_kind(symbol.kind) && !inside_callable) {
                    assert(after.states =~= related.states.push((next_parent, key)));
                }
            }
        }
        match &symbol.children {
            Some(children) => {
                self.add_symbols_below(uri, next_parent, inside_callable || callable, children);
            },
            None => {},
        }
    }

    /// Adds a forest of symbols below `parent` (see `nest_forest`).
    pub fn add_symbols_below(&mut self, uri: &str, parent: usize, inside_callable: bool, symbols: &Vec<DocumentSymbol>)
        requires
            old(self).wf(),
            parent < old(self).model().nodes.len(),
            room(old(self).model(), forest_count(symbols@)),
        ensures
            final(self).wf(),
            final(self).model() == nest_forest(old(self).model(), uri@, parent, inside_callable, symbols@),
            grew_within(old(self).model(), final(self).model(), forest_count(symbols@)),
        decreases symbols@,
    {
        let ghost start = old(self).model();
        let mut i: usize = 0;
        assert(symbols@.take(0) =~= Seq::<DocumentSymbol>::empty());
        while i < symbols.len()
            invariant
                i <= symbols.len(),
                self.wf(),
                parent < start.nodes.len(),
                room(start, forest_count(symbols@)),
                self.model() == nest_forest(start, uri@, parent, inside_callable, symbols@.take(i as int)),
                grew_within(start, self.model(), forest_count(symbols@.take(i as int))),
            decreases symbols.len() - i,
        {
            proof {
                lemma_forest_prefix(symbols@, i as int);
                lemma_forest_prefix(symbols@, i + 1);
                assert(symbols@.take(i + 1).drop_last() =~= symbols@.take(i as int));
            }
            self.add_symbol(uri, parent, inside_callable, &symbols[i]);
            i = i + 1;
        }
        assert(symbols@.take(symbols.len() as int) =~= symbols@);
    }

    /// Adds the symbols of a document below its file node. An empty flat
    /// answer adds nothing; a non-empty one is refused.
    pub fn add_symbols(&mut self, uri: &str, response: Option<SymbolResponse>) -> (r: Result<(), PlexusError>)
        requires
            old(self).wf(),
            response matches Some(SymbolResponse::Nested(symbols)) ==> find(old(self).model().files, uri@) is Some
                && room(old(self).model(), forest_count(symbols@)),
        ensures
            final(self).wf(),
            match response {
                Some(SymbolResponse::Nested(symbols)) => r is Ok && final(self).model() == nest_forest(
                    old(self).model(),
                    uri@,
                    find(old(self).model().files, uri@).unwrap(),
                    false,
                    symbols@,
                ),
                Some(SymbolResponse::Flat(count)) => final(self).model() == old(self).model() && if count == 0 {
                    r is Ok
                } else {
                    r matches Err(PlexusError::FlatSymbols { uri: named }) && named@ == uri@
                },
                None => r is Ok && final(self).model() == old(self).model(),
            },
    {
        match response {
            None => Ok(()),
            Some(SymbolResponse::Nested(symbols)) => {
                let file = self.file_node(uri).unwrap();
                proof {
                    lemma_first_where(entry_for(self.model().files, uri@), self.model().files.len());
                }
                self.add_symbols_below(uri, file, false, &symbols);
                Ok(())
            },
            Some(SymbolResponse::Flat(count)) => {
                if count == 0 {
                    Ok(())
                } else {
                    Err(PlexusError::FlatSymbols { uri: uri.to_owned() })
                }
            },
        }
    }

    /// The unit that encloses a position of a document (see `enclosing`).
    pub fn enclosing_unit(&self, uri: &str, position: Position) -> (r: Option<usize>)
        ensures
            r == enclosing(self.model(), uri@, position),
    {
        let ghost scopes = self.model().scopes;
        let mut kept: Option<(usize, Range)> = None;
        let mut i: usize = 0;
        assert(scopes.take(0).filter(scope_at(uri@, position)) =~= Seq::empty()) by {
            reveal(Seq::filter);
        }
        while i < self.scopes.len()
            invariant
                scopes == self.model().scopes,
                i <= self.scopes.len(),
                match kept {
                    None => scopes.take(i as int).filter(scope_at(uri@, position)).len() == 0,
                    Some((node, range)) => {
                        let c = scopes.take(i as int).filter(scope_at(uri@, position));
                        c.len() > 0 && innermost(c).1 == node && innermost(c).2 == range
                    },
                },
            decreases self.scopes.len() - i,
        {
            let scope = &self.scopes[i];
            assert(scopes[i as int] == (scope.uri@, scope.node, scope.range));
            proof {
                reveal(Seq::filter);
                assert(scopes.take(i + 1).drop_last() =~= scopes.take(i as int));
            }
            if str_equal(scope.uri.as_str(), uri) && contains(scope.range, position) {
                let ghost c = scopes.take(i as int).filter(scope_at(uri@, position));
                assert(scopes.take(i + 1).filter(scope_at(uri@, position)) == c.push(scopes[i as int]));
                assert(c.push(scopes[i as int]).drop_last() =~= c);
                kept = match kept {
                    None => Some((scope.node, scope.range)),
                    Some((node, range)) => if encloses(range, scope.range) {
                        Some((scope.node, scope.range))
                    } else {
                        Some((node, range))
                    },
                };
            }
            i = i + 1;
        }
        assert(scopes.take(self.scopes.len() as int) =~= scopes);
        match kept {
            Some((node, _)) => Some(node),
            None => self.file_node(uri),
        }
    }

    /// Adds the read and write facts that the highlights of one document show
    /// for the state node `state` (see `accesses_model`).
    pub fn add_accesses(&mut self, uri: &str, references: &Vec<Range>, highlights: &Vec<Highlight>, state: usize)
        requires
            old(self).wf(),
            state < old(self).model().nodes.len(),
            old(self).model().edges.len() + highlights.len() <= 0xFFFF_FFFF,
        ensures
            final(self).wf(),
            final(self).model() == accesses_model(old(self).model(), uri@, references@, highlights@, state),
    {
        let ghost start = old(self).model();
        let mut i: usize = 0;
        while i < highlights.len()
            invariant
                i <= highlights.len(),
                self.wf(),
                state < self.model().nodes.len(),
                self.model().edges.len() <= start.edges.len() + i,
                start.edges.len() + highlights.len() <= 0xFFFF_FFFF,
                self.model() == accesses_model(start, uri@, references@, highlights@.take(i as int), state),
            decreases highlights.len() - i,
        {
            let h = &highlights[i];
            assert(highlights@.take(i + 1).drop_last() =~= highlights@.take(i as int));
            assert(highlights@.take(i + 1).last() == *h);
            let mut listed = false;
            let mut j: usize = 0;
            while j < references.len()
                invariant
                    j <= references.len(),
                    listed == exists|t: int| 0 <= t < j && references@[t] == h.range,
                decreases references.len() - j,
            {
                if references[j] == h.range {
                    listed = true;
                }
                j = j + 1;
            }
            if listed {
                match relation_of_access(h.kind) {
                    Some(relation) => match self.enclosing_unit(uri, h.range.start) {
                        Some(source) => {
                            proof {
                                self.lemma_enclosing_is_node(uri@, h.range.start);
                            }
                            self.add_relation(source, state, relation);
                        },
                        None => {},
                    },
                    None => {},
                }
            }
            i = i + 1;
        }
        assert(highlights@.take(highlights.len() as int) =~= highlights@);
    }

    /// The enclosing unit of a position is a node.
    proof fn lemma_enclosing_is_node(&self, uri: Seq<char>, position: Position)
        requires
            self.wf(),
        ensures
            enclosing(self.model(), uri, position) matches Some(n) ==> n < self.model().nodes.len(),
    {
        let w = self.model();
        let c = w.scopes.filter(scope_at(uri, position));
        if c.len() > 0 {
            lemma_innermost_member(c);
            let k = choose|k: int| 0 <= k < c.len() && c[k] == innermost(c);
            assert(c.contains(c[k]));
            w.scopes.lemma_filter_contains_rev(scope_at(uri, position), c[k]);
        } else {
            lemma_first_where(entry_for(w.files, uri), w.files.len());
        }
    }

    /// The references of each known document among `references`: one group
    /// per document, in the order of their first references, each with its
    /// distinct ranges in the order they first come (see `grouping`).
    pub fn group_references(&self, references: &Vec<Location>) -> (groups: Vec<ReferenceGroup>)
        ensures
            group_views(groups@) == grouping(self.model().files, references@),
    {
        let ghost files = self.model().files;
        let mut uris: Vec<String> = Vec::new();
        let mut k: usize = 0;
        while k < references.len()
            invariant
                files == self.model().files,
                k <= references.len(),
                string_views(uris@) == known_uris(files, references@.take(k as int)),
            decreases references.len() - k,
        {
            let uri = &references[k].uri;
            let ghost before = string_views(uris@);
            assert(references@.take(k + 1).drop_last() =~= references@.take(k as int));
            assert(references@.take(k + 1).last() == references@[k as int]);
            if self.file_node(uri.as_str()).is_some() {
                let mut seen = false;
                let mut a: usize = 0;
                while a < uris.len()
                    invariant
                        a <= uris.len(),
                        before == string_views(uris@),
                        seen == exists|b: int| 0 <= b < a && before[b] == uri@,
                    decreases uris.len() - a,
                {
                    assert(before[a as int] == uris@[a as int]@);
                    if str_equal(uris[a].as_str(), uri.as_str()) {
                        seen = true;
                    }
                    a = a + 1;
                }
                assert(seen == before.contains(uri@));
                if !seen {
                    uris.push(uri.clone());
                    assert(string_views(uris@) =~= before.push(uri@));
                }
            }
            k = k + 1;
        }
        assert(references@.take(references.len() as int) =~= references@);
        let ghost listed = known_uris(files, references@);
        let mut groups: Vec<ReferenceGroup> = Vec::new();
        let mut a: usize = 0;
        while a < uris.len()
            invariant
                a <= uris.len(),
                string_views(uris@) == listed,
                group_views(groups@) == listed.take(a as int).map_values(|u: Seq<char>| (u, ranges_in(references@, u))),
            decreases uris.len() - a,
        {
            let ghost u = uris@[a as int]@;
            assert(listed[a as int] == u);
            let mut ranges: Vec<Range> = Vec::new();
            let mut k: usize = 0;
            while k < references.len()
                invariant
                    k <= references.len(),
                    a < uris.len(),
                    u == uris@[a as int]@,
                    ranges@ == ranges_in(references@.take(k as int), u),
                decreases references.len() - k,
            {
                assert(references@.take(k + 1).drop_last() =~= references@.take(k as int));
                assert(references@.take(k + 1).last() == references@[k as int]);
                if str_equal(references[k].uri.as_str(), uris[a].as_str()) {
                    let range = references[k].range;
                    let mut present = false;
                    let mut j: usize = 0;
                    while j < ranges.len()
                        invariant
                            j <= ranges.len(),
                            present == exists|t: int| 0 <= t < j && ranges@[t] == range,
                        decreases ranges.len() - j,
                    {
                        if ranges[j] == range {
                            present = true;
                        }
                        j = j + 1;
                    }
                    if !present {
                        ranges.push(range);
                    }
                }
                k = k + 1;
            }
            assert(references@.take(references.len() as int) =~= references@);
            let group = ReferenceGroup { uri: uris[a].clone(), ranges };
            let ghost before = group_views(groups@);
            groups.push(group);
            assert(group_views(groups@) =~= before.push((u, ranges_in(references@, u))));
            assert(listed.take(a + 1) =~= listed.take(a as int).push(u));
            a = a + 1;
        }
        assert(listed.take(uris.len() as int) =~= listed);
        groups
    }

    /// The node of a call hierarchy item, added where its name's location
    /// has none yet.
    pub fn intern_call_item(&mut self, item: &CallItem) -> (i: usize)
        requires
            old(self).wf(),
            find(old(self).model().selections, item_key(*item)) is None ==> old(self).model().nodes.len()
                < 0xFFFF_FFFF,
        ensures
            final(self).wf(),
            (final(self).model(), i) == intern_model(old(self).model(), item_key(*item), item_node(*item)),
            i < final(self).model().nodes.len(),
    {
        let node = Node {
            name: item.name.clone(),
            kind: item.kind,
            location: Location { uri: item.uri.clone(), range: item.range },
        };
        self.intern(item_selection(item), node)
    }

    /// Interns the prepared call hierarchy items whose name's location is
    /// not among `prepared` yet, and adds those locations to it; for each
    /// such item, its position in `items` and its node.
    pub fn add_prepared(&mut self, prepared: &mut Vec<Location>, items: &Vec<CallItem>) -> (added: Vec<(usize, usize)>)
        requires
            old(self).wf(),
            old(self).model().nodes.len() + items.len() < 0xFFFF_FFFF,
        ensures
            final(self).wf(),
            (final(self).model(), keys(final(prepared)@), added@) == prepare_model(
                old(self).model(),
                keys(old(prepared)@),
                items@,
            ),
    {
        let ghost start = self.model();
        let ghost start_prepared = keys(prepared@);
        let mut added: Vec<(usize, usize)> = Vec::new();
        let mut i: usize = 0;
        assert(items@.take(0) =~= Seq::<CallItem>::empty());
        while i < items.len()
            invariant
                i <= items.len(),
                self.wf(),
                start.nodes.len() + items.len() < 0xFFFF_FFFF,
                self.model().nodes.len() <= start.nodes.len() + i,
                (self.model(), keys(prepared@), added@) == prepare_model(start, start_prepared, items@.take(i as int)),
            decreases items.len() - i,
        {
            let item = &items[i];
            assert(items@.take(i + 1).drop_last() =~= items@.take(i as int));
            assert(items@.take(i + 1).last() == *item);
            let selection = item_selection(item);
            let mut seen = false;
            let mut j: usize = 0;
            while j < prepared.len()
                invariant
                    j <= prepared.len(),
                    location_key(selection) == item_key(*item),
                    seen == exists|t: int| 0 <= t < j && keys(prepared@)[t] == item_key(*item),
                decreases prepared.len() - j,
            {
                assert(keys(prepared@)[j as int] == location_key(prepared@[j as int]));
                if same_location(&prepared[j], &selection) {
                    seen = true;
                }
                j = j + 1;
            }
            assert(seen == keys(prepared@).contains(item_key(*item)));
            if !seen {
                let node = self.intern_call_item(item);
                let ghost before = prepared@;
                prepared.push(selection);
                assert(keys(prepared@) =~= keys(before).push(item_key(*item)));
                added.push((i, node));
            }
            i = i + 1;
        }
        assert(items@.take(items.len() as int) =~= items@);
        added
    }

    /// Records that `caller` calls each of `callees`, interning them first.
    pub fn add_outgoing_calls(&mut self, caller: usize, callees: &Vec<CallItem>)
        requires
            old(self).wf(),
            caller < old(self).model().nodes.len(),
            room(old(self).model(), callees.len() as nat),
        ensures
            final(self).wf(),
            final(self).model() == calls_model(old(self).model(), caller, callees@),
    {
        let ghost start = self.model();
        let mut i: usize = 0;
        while i < callees.len()
            invariant
                i <= callees.len(),
                self.wf(),
                caller < self.model().nodes.len(),
                room(start, callees.len() as nat),
                self.model().nodes.len() <= start.nodes.len() + i,
                self.model().edges.len() <= start.edges.len() + i,
                self.model() == calls_model(start, caller, callees@.take(i as int)),
            decreases callees.len() - i,
        {
            assert(callees@.take(i + 1).drop_last() =~= callees@.take(i as int));
            assert(callees@.take(i + 1).last() == callees@[i as int]);
            let callee = self.intern_call_item(&callees[i]);
            self.add_relation(caller, callee, Relation::Calls);
            i = i + 1;
        }
        assert(callees@.take(callees.len() as int) =~= callees@);
    }

    /// The callables in the order in which their call hierarchy is prepared
    /// (see `probe_order`).
    pub fn call_definitions(&self) -> (r: Vec<IndexedSymbol>)
        requires
            self.wf(),
        ensures
            symbol_keys(r@) == probe_order(self.model().callables, self.model().nodes),
    {
        let ghost callables = self.model().callables;
        let ghost nodes = self.model().nodes;
        let mut r: Vec<IndexedSymbol> = Vec::new();
        let mut probe: Option<usize> = None;
        let mut i: usize = 0;
        while i < self.callables.len()
            invariant
                i <= self.callables.len(),
                callables == self.model().callables,
                nodes == self.model().nodes,
                self.wf(),
                symbol_keys(r@) == callables.take(i as int),
                match probe {
                    None => forall|j: int| 0 <= j < i ==> !#[trigger] probe_at(callables, nodes)(j),
                    Some(p) => first_where(probe_at(callables, nodes), callables.len()) == Some(p as int) && p < i,
                },
            decreases self.callables.len() - i,
        {
            let symbol = &self.callables[i];
            assert(callables[i as int] == (symbol.node, location_key(symbol.selection)));
            proof {
                self.lemma_model_graph();
            }
            let kind = node_at(&self.graph, symbol.node).kind;
            if probe.is_none() && (kind == NodeKind::Function || kind == NodeKind::Method) {
                proof {
                    lemma_first_where_is(probe_at(callables, nodes), callables.len(), i as int);
                }
                probe = Some(i);
            }
            let copy = IndexedSymbol { node: symbol.node, selection: copy_location(&symbol.selection) };
            let ghost before = r@;
            r.push(copy);
            assert(location_key(copy.selection) == location_key(symbol.selection));
            assert(symbol_keys(r@) =~= symbol_keys(before).push(callables[i as int]));
            assert(symbol_keys(r@) =~= callables.take(i + 1));
            i = i + 1;
        }
        assert(callables.take(self.callables.len() as int) =~= callables);
        match probe {
            Some(p) => {
                if p > 0 {
                    let first = IndexedSymbol { node: r[0].node, selection: copy_location(&r[0].selection) };
                    let chosen = IndexedSymbol { node: r[p].node, selection: copy_location(&r[p].selection) };
                    r.set(0, chosen);
                    r.set(p, first);
                }
                assert(symbol_keys(r@) =~= probe_order(callables, nodes));
            },
            None => {
                proof {
                    lemma_first_where(probe_at(callables, nodes), callables.len());
                }
            },
        }
        r
    }

    /// The state symbols: fields, and variables and constants outside
    /// callables, in the order they were found.
    pub fn state_symbols(&self) -> (r: Vec<IndexedSymbol>)
        ensures
            symbol_keys(r@) == self.model().states,
    {
        let mut r: Vec<IndexedSymbol> = Vec::new();
        let mut i: usize = 0;
        while i < self.state_symbols.len()
            invariant
                i <= self.state_symbols.len(),
                symbol_keys(r@) == symbol_keys(self.state_symbols@).take(i as int),
            decreases self.state_symbols.len() - i,
        {
            let symbol = &self.state_symbols[i];
            let copy = IndexedSymbol { node: symbol.node, selection: copy_location(&symbol.selection) };
            let ghost before = r@;
            r.push(copy);
            assert(location_key(copy.selection) == location_key(symbol.selection));
            assert(symbol_keys(r@) =~= symbol_keys(before).push(symbol_keys(self.state_symbols@)[i as int]));
            assert(symbol_keys(r@) =~= symbol_keys(self.state_symbols@).take(i + 1));
            i = i + 1;
        }
        assert(symbol_keys(self.state_symbols@).take(self.state_symbols.len() as int) =~= symbol_keys(self.state_symbols@));
        r
    }

    /// The file node of a document, by URI.
    pub fn file_node(&self, uri: &str) -> (r: Option<usize>)
        ensures
            r == find(self.model().files, uri@),
    {
        let ghost pairs = self.model().files;
        let mut i: usize = 0;
        while i < self.files.len()
            invariant
                pairs == self.model().files,
                i <= self.files.len(),
                forall|j: int| 0 <= j < i ==> !#[trigger] entry_for(pairs, uri@)(j),
            decreases self.files.len() - i,
        {
            assert(pairs[i as int] == (self.files@[i as int].0@, self.files@[i as int].1));
            if str_equal(self.files[i].0.as_str(), uri) {
                proof {
                    lemma_first_where_is(entry_for(pairs, uri@), pairs.len(), i as int);
                }
                return Some(self.files[i].1);
            }
            i = i + 1;
        }
        proof {
            lemma_first_where(entry_for(pairs, uri@), pairs.len());
        }
        None
    }

    /// How many nodes and edges the graph has.
    pub fn counts(&self) -> (r: (usize, usize))
        ensures
            r.0 == self.model().nodes.len(),
            r.1 == self.model().edges.len(),
    {
        (node_count(&self.graph), crate::graph::edge_count(&self.graph))
    }

    /// The finished graph.
    pub fn into_graph(self) -> (g: ProgramGraph)
        ensures
            g == self.graph_of(),
    {
        self.graph
    }
}

} // verus!
