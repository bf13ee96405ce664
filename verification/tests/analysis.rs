use petgraph::graph::NodeIndex;
use plexus::analysis::{
    document_range, ignored_directory, CallItem, DocumentSymbol, Highlight, AccessKind, SourceDocument,
    SymbolResponse, WorkspaceGraph,
};
use plexus::graph::{Location, NodeKind, Position, ProgramGraph, Range, Relation};
use plexus::mutation::mutates;

const URI: &str = "file:///src/lib.rs";

fn range(start: u32, end: u32) -> Range {
    Range {
        start: Position { line: start, character: 0 },
        end: Position { line: end, character: 0 },
    }
}

fn symbol(name: &str, kind: NodeKind, start: u32, end: u32, children: Option<Vec<DocumentSymbol>>) -> DocumentSymbol {
    DocumentSymbol {
        name: name.to_owned(),
        kind,
        range: range(start, end),
        selection_range: Range {
            start: Position { line: start, character: 4 },
            end: Position { line: start, character: 8 },
        },
        children,
    }
}

fn source() -> SourceDocument {
    SourceDocument {
        uri: URI.to_owned(),
        text: "pub struct Counter {\n    value: u32,\n}\n".to_owned(),
    }
}

fn counter_symbols() -> Vec<DocumentSymbol> {
    vec![
        symbol(
            "Counter",
            NodeKind::Struct,
            0,
            2,
            Some(vec![symbol("value", NodeKind::Field, 1, 1, None)]),
        ),
        symbol(
            "tick",
            NodeKind::Function,
            4,
            6,
            Some(vec![symbol("local", NodeKind::Variable, 5, 5, None)]),
        ),
    ]
}

fn find(graph: &ProgramGraph, name: &str, kind: NodeKind) -> NodeIndex {
    graph
        .node_indices()
        .find(|&node| graph[node].name == name && graph[node].kind == kind)
        .unwrap()
}

fn relates(graph: &ProgramGraph, source: NodeIndex, target: NodeIndex, relation: Relation) -> bool {
    graph.edges_connecting(source, target).any(|edge| *edge.weight() == relation)
}

#[test]
fn accepts_empty_flat_symbol_response() {
    let mut workspace = WorkspaceGraph::new();
    let uri = "file:///empty.zig";

    workspace.add_symbols(uri, Some(SymbolResponse::Flat(0))).unwrap();
}

#[test]
fn refuses_a_non_empty_flat_symbol_response() {
    let mut workspace = WorkspaceGraph::new();
    let error = workspace.add_symbols(URI, Some(SymbolResponse::Flat(2))).unwrap_err();
    assert_eq!(
        error.message(),
        "language server returned flat symbols for file:///src/lib.rs; Plexus requires hierarchical document symbols"
    );
}

#[test]
fn files_and_nested_symbols_become_contained_nodes() {
    let mut workspace = WorkspaceGraph::new();
    workspace.add_file(&source());
    workspace.add_symbols(URI, Some(SymbolResponse::Nested(counter_symbols()))).unwrap();
    let states = workspace.state_symbols();
    let callables = workspace.call_definitions();
    let graph = workspace.into_graph();

    assert_eq!(graph.node_count(), 4);
    let file = find(&graph, "lib.rs", NodeKind::File);
    assert_eq!(graph[file].location.range, Range {
        start: Position { line: 0, character: 0 },
        end: Position { line: 3, character: 0 },
    });
    let counter = find(&graph, "Counter", NodeKind::Struct);
    let value = find(&graph, "value", NodeKind::Field);
    let tick = find(&graph, "tick", NodeKind::Function);
    assert!(relates(&graph, file, counter, Relation::Contains));
    assert!(relates(&graph, counter, value, Relation::Contains));
    assert!(relates(&graph, file, tick, Relation::Contains));
    assert!(graph.node_indices().all(|node| graph[node].name != "local"));
    assert_eq!(graph.edge_count(), 3);
    assert_eq!(states.len(), 1);
    assert_eq!(states[0].node, value.index());
    assert_eq!(callables.len(), 1);
    assert_eq!(callables[0].node, tick.index());
}

#[test]
fn a_symbol_reported_twice_keeps_one_node() {
    let mut workspace = WorkspaceGraph::new();
    workspace.add_file(&source());
    workspace.add_symbols(URI, Some(SymbolResponse::Nested(counter_symbols()))).unwrap();
    workspace.add_symbols(URI, Some(SymbolResponse::Nested(counter_symbols()))).unwrap();
    let graph = workspace.into_graph();
    assert_eq!(graph.node_count(), 4);
    assert_eq!(graph.edge_count(), 3);
}

fn item(name: &str, kind: NodeKind, start: u32) -> CallItem {
    CallItem {
        name: name.to_owned(),
        kind,
        uri: URI.to_owned(),
        range: range(start, start + 2),
        selection_range: Range {
            start: Position { line: start, character: 4 },
            end: Position { line: start, character: 8 },
        },
    }
}

#[test]
fn prepared_items_are_interned_once_and_calls_recorded() {
    let mut workspace = WorkspaceGraph::new();
    workspace.add_file(&source());
    workspace.add_symbols(URI, Some(SymbolResponse::Nested(counter_symbols()))).unwrap();
    let mut prepared: Vec<Location> = Vec::new();
    let items = vec![item("tick", NodeKind::Function, 4), item("tick", NodeKind::Function, 4)];
    let added = workspace.add_prepared(&mut prepared, &items);
    assert_eq!(added.len(), 1);
    assert_eq!(added[0].0, 0);
    assert_eq!(prepared.len(), 1);
    let again = workspace.add_prepared(&mut prepared, &items);
    assert!(again.is_empty());

    let caller = added[0].1;
    let callees = vec![item("increment", NodeKind::Method, 9), item("increment", NodeKind::Method, 9)];
    workspace.add_outgoing_calls(caller, &callees);
    let graph = workspace.into_graph();
    assert_eq!(graph.node_count(), 5);
    let tick = find(&graph, "tick", NodeKind::Function);
    assert_eq!(tick.index(), caller);
    let increment = find(&graph, "increment", NodeKind::Method);
    assert!(relates(&graph, tick, increment, Relation::Calls));
    assert_eq!(graph.edges_connecting(tick, increment).count(), 1);
}

#[test]
fn the_first_function_is_prepared_first() {
    let mut workspace = WorkspaceGraph::new();
    workspace.add_file(&source());
    let symbols = vec![
        symbol("new", NodeKind::Constructor, 0, 1, None),
        symbol("helper", NodeKind::Constructor, 2, 3, None),
        symbol("run", NodeKind::Function, 4, 5, None),
    ];
    workspace.add_symbols(URI, Some(SymbolResponse::Nested(symbols))).unwrap();
    let order: Vec<u32> = workspace
        .call_definitions()
        .iter()
        .map(|definition| definition.selection.range.start.line)
        .collect();
    assert_eq!(order, vec![4, 2, 0]);
}

#[test]
fn accesses_come_from_the_innermost_callable() {
    let mut workspace = WorkspaceGraph::new();
    workspace.add_file(&source());
    let symbols = vec![
        symbol("Counter", NodeKind::Struct, 0, 2, Some(vec![symbol("value", NodeKind::Field, 1, 1, None)])),
        symbol(
            "outer",
            NodeKind::Function,
            4,
            20,
            Some(vec![symbol("inner", NodeKind::Function, 6, 10, None)]),
        ),
    ];
    workspace.add_symbols(URI, Some(SymbolResponse::Nested(symbols))).unwrap();
    let state = workspace.state_symbols()[0].node;
    assert_eq!(workspace.enclosing_unit(URI, Position { line: 7, character: 2 }), Some(4));
    assert_eq!(workspace.enclosing_unit(URI, Position { line: 12, character: 0 }), Some(3));
    assert_eq!(workspace.enclosing_unit(URI, Position { line: 30, character: 0 }), Some(0));
    assert_eq!(workspace.enclosing_unit("file:///other.rs", Position { line: 0, character: 0 }), None);

    let references = vec![
        Location { uri: URI.to_owned(), range: range(7, 7) },
        Location { uri: URI.to_owned(), range: range(12, 12) },
        Location { uri: URI.to_owned(), range: range(7, 7) },
        Location { uri: "file:///other.rs".to_owned(), range: range(1, 1) },
    ];
    let groups = workspace.group_references(&references);
    assert_eq!(groups.len(), 1);
    assert_eq!(groups[0].uri, URI);
    assert_eq!(groups[0].ranges, vec![range(7, 7), range(12, 12)]);

    let highlights = vec![
        Highlight { range: range(7, 7), kind: Some(AccessKind::Write) },
        Highlight { range: range(12, 12), kind: Some(AccessKind::Read) },
        Highlight { range: range(15, 15), kind: Some(AccessKind::Write) },
        Highlight { range: range(12, 12), kind: Some(AccessKind::Text) },
        Highlight { range: range(12, 12), kind: None },
    ];
    workspace.add_accesses(URI, &groups[0].ranges, &highlights, state);
    let graph = workspace.into_graph();
    let value = find(&graph, "value", NodeKind::Field);
    let outer = find(&graph, "outer", NodeKind::Function);
    let inner = find(&graph, "inner", NodeKind::Function);
    assert!(relates(&graph, inner, value, Relation::Writes));
    assert!(relates(&graph, outer, value, Relation::Reads));
    assert!(!relates(&graph, outer, value, Relation::Writes));
    assert!(!relates(&graph, inner, value, Relation::Reads));
}

#[test]
fn document_ranges_count_lines_and_utf16_units() {
    assert_eq!(document_range(""), range(0, 0));
    assert_eq!(document_range("a\nbc"), Range {
        start: Position { line: 0, character: 0 },
        end: Position { line: 1, character: 2 },
    });
    assert_eq!(document_range("x\n"), range(0, 1));
    assert_eq!(document_range("é😀"), Range {
        start: Position { line: 0, character: 0 },
        end: Position { line: 0, character: 3 },
    });
}

#[test]
fn ignores_tool_and_build_directories() {
    for name in [".git", ".hg", ".svn", ".zig-cache", "node_modules", "target", "zig-cache", "zig-out"] {
        assert!(ignored_directory(name));
    }
    assert!(!ignored_directory("src"));
    assert!(!ignored_directory("targets"));
}

fn mutation_graph() -> (ProgramGraph, [NodeIndex; 5]) {
    let mut workspace = WorkspaceGraph::new();
    workspace.add_file(&source());
    let symbols = vec![
        symbol(
            "Counter",
            NodeKind::Struct,
            0,
            2,
            Some(vec![symbol("value", NodeKind::Field, 1, 1, None)]),
        ),
        symbol("increment", NodeKind::Method, 4, 6, None),
        symbol("value", NodeKind::Method, 8, 10, None),
        symbol("tick", NodeKind::Function, 12, 14, None),
    ];
    workspace.add_symbols(URI, Some(SymbolResponse::Nested(symbols))).unwrap();
    let graph = workspace.into_graph();
    let counter = find(&graph, "Counter", NodeKind::Struct);
    let field = find(&graph, "value", NodeKind::Field);
    let increment = find(&graph, "increment", NodeKind::Method);
    let reader = find(&graph, "value", NodeKind::Method);
    let tick = find(&graph, "tick", NodeKind::Function);
    (graph, [counter, field, increment, reader, tick])
}

#[test]
fn mutation_follows_calls_and_containment() {
    let (mut graph, [counter, field, increment, reader, tick]) = mutation_graph();
    graph.add_edge(tick, increment, Relation::Calls);
    graph.add_edge(increment, field, Relation::Writes);
    graph.add_edge(reader, field, Relation::Reads);

    assert!(mutates(&graph, tick.index(), counter.index()));
    assert!(mutates(&graph, increment.index(), counter.index()));
    assert!(mutates(&graph, increment.index(), field.index()));
    assert!(!mutates(&graph, reader.index(), counter.index()));
    assert!(!mutates(&graph, counter.index(), field.index()));
}

#[test]
fn interning_a_location_twice_keeps_the_first_node() {
    let mut workspace = WorkspaceGraph::new();
    let selection = Location { uri: URI.to_owned(), range: range(3, 3) };
    let node = |name: &str| plexus::graph::Node {
        name: name.to_owned(),
        kind: NodeKind::Function,
        location: Location { uri: URI.to_owned(), range: range(3, 5) },
    };
    let first = workspace.intern(Location { uri: selection.uri.clone(), range: selection.range }, node("first"));
    let second = workspace.intern(selection, node("second"));
    assert_eq!(first, second);
    workspace.add_relation(first, second, Relation::Calls);
    workspace.add_relation(first, second, Relation::Calls);
    let graph = workspace.into_graph();
    assert_eq!(graph.node_count(), 1);
    assert_eq!(graph[NodeIndex::new(first)].name, "first");
    assert_eq!(graph.edge_count(), 1);
}
