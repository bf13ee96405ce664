use petgraph::graph::NodeIndex;
use plexus::analysis::{AccessKind, CallItem, DocumentSymbol, Highlight, SourceDocument, SymbolResponse};
use plexus::extraction::{Answer, Extraction, Request};
use plexus::graph::{Location, NodeKind, Position, ProgramGraph, Range, Relation};
use plexus::mutation::mutates;
use plexus::protocol::Plan;

const URI: &str = "file:///fixture/src/lib.rs";

fn line_range(start: u32, end: u32) -> Range {
    Range {
        start: Position { line: start, character: 0 },
        end: Position { line: end, character: 0 },
    }
}

fn name_range(line: u32) -> Range {
    Range {
        start: Position { line, character: 4 },
        end: Position { line, character: 8 },
    }
}

fn symbol(name: &str, kind: NodeKind, start: u32, end: u32, children: Option<Vec<DocumentSymbol>>) -> DocumentSymbol {
    DocumentSymbol {
        name: name.to_owned(),
        kind,
        range: line_range(start, end),
        selection_range: name_range(start),
        children,
    }
}

fn item(name: &str, kind: NodeKind, start: u32, end: u32) -> CallItem {
    CallItem {
        name: name.to_owned(),
        kind,
        uri: URI.to_owned(),
        range: line_range(start, end),
        selection_range: name_range(start),
    }
}

fn document() -> SourceDocument {
    SourceDocument {
        uri: URI.to_owned(),
        text: "pub struct Counter {\n    value: u32,\n}\n".to_owned(),
    }
}

fn symbols() -> Vec<DocumentSymbol> {
    vec![
        symbol(
            "Counter",
            NodeKind::Struct,
            0,
            2,
            Some(vec![symbol("value", NodeKind::Field, 1, 1, None)]),
        ),
        symbol("increment", NodeKind::Method, 5, 7, None),
        symbol("value", NodeKind::Method, 9, 11, None),
        symbol("tick", NodeKind::Function, 14, 16, None),
    ]
}

fn find(graph: &ProgramGraph, name: &str, kind: NodeKind) -> NodeIndex {
    graph
        .node_indices()
        .find(|&node| graph[node].name == name && graph[node].kind == kind)
        .unwrap()
}

fn relates(graph: &ProgramGraph, source: NodeIndex, target: NodeIndex, relation: Relation) -> bool {
    graph.edges_connecting(source, target).any(|edge| *edge.weight() == relation)
}

/// Answers each request as a language server would for the fixture.
fn serve(request: &Request) -> Answer {
    match request {
        Request::DocumentSymbols { document } => {
            assert_eq!(*document, 0);
            Answer::Symbols(Some(SymbolResponse::Nested(symbols())))
        }
        Request::PrepareCallHierarchy { selection, .. } => {
            let line = selection.range.start.line;
            let prepared = match line {
                5 => item("increment", NodeKind::Method, 5, 7),
                9 => item("value", NodeKind::Method, 9, 11),
                14 => item("tick", NodeKind::Function, 14, 16),
                _ => panic!("unexpected call hierarchy request at line {line}"),
            };
            Answer::Prepared(vec![prepared])
        }
        Request::OutgoingCalls { item: 2 } => Answer::Calls(vec![item("increment", NodeKind::Method, 5, 7)]),
        Request::OutgoingCalls { .. } => Answer::Calls(Vec::new()),
        Request::References { selection } => {
            assert_eq!(selection.range.start.line, 1);
            Answer::References(vec![
                Location { uri: URI.to_owned(), range: line_range(6, 6) },
                Location { uri: URI.to_owned(), range: line_range(10, 10) },
            ])
        }
        Request::Highlights { uri, position } => {
            assert_eq!(uri, URI);
            assert_eq!(*position, Position { line: 6, character: 0 });
            Answer::Highlights(vec![
                Highlight { range: line_range(6, 6), kind: Some(AccessKind::Write) },
                Highlight { range: line_range(10, 10), kind: Some(AccessKind::Read) },
            ])
        }
        Request::Done => panic!("no answer after the end"),
    }
}

fn run(plan: Plan) -> (ProgramGraph, Vec<String>) {
    let mut extraction = Extraction::new(vec![document()], plan);
    let mut asked = Vec::new();
    loop {
        let request = extraction.request();
        let label = match &request {
            Request::Done => break,
            Request::DocumentSymbols { document } => format!("symbols {document}"),
            Request::PrepareCallHierarchy { selection, wait_for_item } => {
                format!("prepare {} {}", selection.range.start.line, wait_for_item)
            }
            Request::OutgoingCalls { item } => format!("calls {item}"),
            Request::References { selection } => format!("references {}", selection.range.start.line),
            Request::Highlights { position, .. } => format!("highlights {}", position.line),
        };
        asked.push(label);
        let answer = serve(&request);
        extraction.answer(answer).unwrap();
    }
    (extraction.finish(), asked)
}

#[test]
fn extracts_program_relationships() {
    let (graph, asked) = run(Plan { calls: true, accesses: true });
    assert_eq!(
        asked,
        vec![
            "symbols 0",
            "prepare 5 true",
            "prepare 9 false",
            "prepare 14 false",
            "calls 0",
            "calls 1",
            "calls 2",
            "references 1",
            "highlights 6",
        ]
    );

    let counter = find(&graph, "Counter", NodeKind::Struct);
    let field = find(&graph, "value", NodeKind::Field);
    let increment = find(&graph, "increment", NodeKind::Method);
    let value = find(&graph, "value", NodeKind::Method);
    let tick = find(&graph, "tick", NodeKind::Function);

    assert!(relates(&graph, counter, field, Relation::Contains));
    assert!(relates(&graph, tick, increment, Relation::Calls));
    assert!(relates(&graph, increment, field, Relation::Writes));
    assert!(relates(&graph, value, field, Relation::Reads));
    assert!(mutates(&graph, tick.index(), counter.index()));
    assert!(!mutates(&graph, value.index(), counter.index()));
    assert_eq!(graph.node_count(), 6);
}

#[test]
fn asks_only_what_the_plan_allows() {
    let (graph, asked) = run(Plan { calls: false, accesses: false });
    assert_eq!(asked, vec!["symbols 0"]);
    assert_eq!(graph.node_count(), 6);
    assert_eq!(graph.edge_count(), 5);

    let (graph, asked) = run(Plan { calls: false, accesses: true });
    assert_eq!(asked, vec!["symbols 0", "references 1", "highlights 6"]);
    assert_eq!(graph.edge_count(), 7);
}

#[test]
fn refuses_flat_symbols_during_extraction() {
    let mut extraction = Extraction::new(vec![document()], Plan { calls: true, accesses: true });
    assert!(matches!(extraction.request(), Request::DocumentSymbols { document: 0 }));
    let error = extraction.answer(Answer::Symbols(Some(SymbolResponse::Flat(3)))).unwrap_err();
    assert!(error.message().contains("flat symbols for file:///fixture/src/lib.rs"));
}

#[test]
fn an_empty_workspace_asks_nothing() {
    let extraction = Extraction::new(Vec::new(), Plan { calls: true, accesses: true });
    assert!(matches!(extraction.request(), Request::Done));
    assert_eq!(extraction.finish().node_count(), 0);
}
