use async_lsp::lsp_types::Url;
use petgraph::graph::NodeIndex;
use plexus::graph::{Location, Node, NodeKind, Position, ProgramGraph, Range, Relation};
use plexus::output::compact::write_compact;
use plexus::output::json::{kind_value, write_json, KindValue};
use plexus::output::{resolved_root, write_summary};

const ROOT: &str = "/";

fn example_uri() -> String {
    Url::from_file_path("/src/example.rs").unwrap().to_string()
}

fn node_at(uri: &str, name: &str, kind: NodeKind, start: u32, end: u32) -> Node {
    Node {
        name: name.to_owned(),
        kind,
        location: Location {
            uri: uri.to_owned(),
            range: Range {
                start: Position { line: start, character: 0 },
                end: Position { line: end, character: 0 },
            },
        },
    }
}

fn test_graph_in_order(order: [usize; 5]) -> ProgramGraph {
    let uri = example_uri();
    let nodes = [
        (NodeKind::Function, "run", 7, 9),
        (NodeKind::Method, "increment", 3, 5),
        (NodeKind::Field, "value", 2, 2),
        (NodeKind::Struct, "Counter", 1, 6),
        (NodeKind::File, "example.rs", 0, 10),
    ];
    let mut graph = ProgramGraph::new();
    let mut indices = [NodeIndex::new(0); 5];
    for id in order {
        let (kind, name, start, end) = nodes[id];
        indices[id] = graph.add_node(node_at(&uri, name, kind, start, end));
    }
    let function = indices[0];
    let method = indices[1];
    let field = indices[2];
    let structure = indices[3];
    let file = indices[4];
    graph.add_edge(file, structure, Relation::Contains);
    graph.add_edge(structure, field, Relation::Contains);
    graph.add_edge(structure, method, Relation::Contains);
    graph.add_edge(file, function, Relation::Contains);
    graph.add_edge(function, method, Relation::Calls);
    graph.add_edge(method, field, Relation::Reads);
    graph
}

fn test_graph() -> ProgramGraph {
    test_graph_in_order([0, 1, 2, 3, 4])
}

fn reversed_test_graph() -> ProgramGraph {
    test_graph_in_order([4, 3, 2, 1, 0])
}

fn find(graph: &ProgramGraph, name: &str, kind: NodeKind) -> NodeIndex {
    graph
        .node_indices()
        .find(|&node| graph[node].name == name && graph[node].kind == kind)
        .unwrap()
}

#[test]
fn writes_compact_graph() {
    let graph = test_graph();
    let output = write_compact(&graph, ROOT).unwrap();

    let expected = "plexus/1 positions=utf-16,zero-based

@0 src/example.rs
1 struct 1:0 Counter
  2 field 2:0 value
  3 method 3:0 increment
4 fn 7:0 run

calls
4:3

reads
3:2
";
    assert_eq!(output, expected);
}

#[test]
fn rejects_multiple_containment_parents() {
    let mut graph = test_graph();
    let function = find(&graph, "run", NodeKind::Function);
    let field = find(&graph, "value", NodeKind::Field);
    graph.add_edge(function, field, Relation::Contains);

    let error = write_compact(&graph, ROOT).unwrap_err();
    assert!(error.message().contains("multiple containment parents"));
}

#[test]
fn rejects_containment_cycles() {
    let mut graph = test_graph();
    let file = find(&graph, "example.rs", NodeKind::File);
    let uri = graph[file].location.uri.clone();
    let first = graph.add_node(node_at(&uri, "first", NodeKind::Module, 11, 12));
    let second = graph.add_node(node_at(&uri, "second", NodeKind::Module, 13, 14));
    graph.add_edge(first, second, Relation::Contains);
    graph.add_edge(second, first, Relation::Contains);

    let error = write_compact(&graph, ROOT).unwrap_err();
    assert!(error.message().contains("cyclic"));
}

#[test]
fn rejects_a_parent_for_the_file_node() {
    let mut graph = test_graph();
    let file = find(&graph, "example.rs", NodeKind::File);
    let field = find(&graph, "value", NodeKind::Field);
    graph.add_edge(field, file, Relation::Contains);

    let error = write_compact(&graph, ROOT).unwrap_err();
    assert!(error.message().contains("file node"));
}

#[test]
fn writes_canonical_json() {
    let graph = test_graph();
    let document = write_json(&graph, ROOT).unwrap();
    assert_eq!(document.schema, "plexus/graph@1");
    assert_eq!(document.positions.encoding, "utf-16");
    assert_eq!(document.nodes[0].kind.display(), "file");
    assert_eq!(document.nodes[4].kind.display(), "function");
    assert!(document.edges.iter().any(|edge| edge.relation.as_str() == "calls"));
}

#[test]
fn output_does_not_depend_on_graph_insertion_order() {
    let graph = test_graph();
    let reversed = reversed_test_graph();

    assert_eq!(
        format!("{:?}", write_json(&graph, ROOT).unwrap()),
        format!("{:?}", write_json(&reversed, ROOT).unwrap())
    );
    assert_eq!(write_compact(&graph, ROOT).unwrap(), write_compact(&reversed, ROOT).unwrap());
}

#[test]
fn preserves_unknown_node_kinds() {
    let mut graph = test_graph();
    let node = graph.node_indices().next().unwrap();
    graph[node].kind = NodeKind::Unknown(99);

    let document = write_json(&graph, ROOT).unwrap();
    assert!(document.nodes.iter().any(|node| node.kind == NodeKind::Unknown(99)));
    assert!(document.nodes.iter().any(|node| node.kind.display() == "99"));
    assert!(document
        .nodes
        .iter()
        .any(|node| matches!(kind_value(node.kind), KindValue::Code(99))));
    assert!(document
        .nodes
        .iter()
        .any(|node| matches!(kind_value(node.kind), KindValue::Name(ref name) if name == "method")));
}

#[test]
fn rejects_nodes_without_a_stable_distinguishing_identity() {
    let mut graph = test_graph();
    let original = graph.node_indices().next().unwrap();
    let copy = Node {
        name: graph[original].name.clone(),
        kind: graph[original].kind,
        location: graph[original].location.clone(),
    };
    graph.add_node(copy);

    let error = write_json(&graph, ROOT).unwrap_err();
    assert!(error.message().contains("no stable distinguishing identity"));
}

#[test]
fn json_numbers_nodes_files_and_edges_canonically() {
    let document = write_json(&test_graph(), ROOT).unwrap();
    assert_eq!(document.root, "file:///");
    assert_eq!(document.files, vec![example_uri()]);
    assert_eq!(document.positions.base, 0);
    assert!(document.positions.end_exclusive);
    let names: Vec<&str> = document.nodes.iter().map(|node| node.name.as_str()).collect();
    assert_eq!(names, vec!["example.rs", "Counter", "value", "increment", "run"]);
    let ids: Vec<usize> = document.nodes.iter().map(|node| node.id).collect();
    assert_eq!(ids, vec![0, 1, 2, 3, 4]);
    assert_eq!(document.nodes[1].range, [1, 0, 6, 0]);
    assert!(document.nodes.iter().all(|node| node.file == 0));
    let edges: Vec<(usize, &str, usize)> = document
        .edges
        .iter()
        .map(|edge| (edge.source, edge.relation.as_str(), edge.target))
        .collect();
    assert_eq!(
        edges,
        vec![
            (0, "contains", 1),
            (0, "contains", 4),
            (1, "contains", 2),
            (1, "contains", 3),
            (3, "reads", 2),
            (4, "calls", 3),
        ]
    );
}

#[test]
fn compact_escapes_names_and_lists_writes() {
    let uri = example_uri();
    let mut graph = ProgramGraph::new();
    let file = graph.add_node(node_at(&uri, "example.rs", NodeKind::File, 0, 10));
    let function = graph.add_node(node_at(&uri, "odd\nname", NodeKind::Function, 1, 3));
    let constant = graph.add_node(node_at(&uri, "LIMIT", NodeKind::Constant, 4, 4));
    graph.add_edge(file, function, Relation::Contains);
    graph.add_edge(file, constant, Relation::Contains);
    graph.add_edge(function, constant, Relation::Writes);

    let output = write_compact(&graph, ROOT).unwrap();
    let expected = "plexus/1 positions=utf-16,zero-based

@0 src/example.rs
1 fn 1:0 odd\\nname
2 constant 4:0 LIMIT

writes
1:2
";
    assert_eq!(output, expected);
}

#[test]
fn rejects_containment_across_files() {
    let mut graph = test_graph();
    let other = Url::from_file_path("/src/other.rs").unwrap().to_string();
    let module = graph.add_node(node_at(&other, "other", NodeKind::Module, 0, 1));
    let structure = find(&graph, "Counter", NodeKind::Struct);
    graph.add_edge(structure, module, Relation::Contains);

    let error = write_compact(&graph, ROOT).unwrap_err();
    assert!(error.message().contains("crosses files"));
}

#[test]
fn rejects_two_file_nodes_for_one_file() {
    let mut graph = test_graph();
    let uri = example_uri();
    graph.add_node(node_at(&uri, "again.rs", NodeKind::File, 0, 10));

    let error = write_json(&graph, ROOT).unwrap_err();
    assert!(error.message().contains("has multiple file nodes"));
}

#[test]
fn unresolved_roots_are_reported() {
    let error = write_compact(&test_graph(), "/no/such/plexus/root").unwrap_err();
    assert_eq!(error.message(), "cannot resolve project root /no/such/plexus/root");
}

#[test]
fn summarises_counts() {
    assert_eq!(write_summary(&test_graph()), "5 nodes, 6 relationships\n");
    assert_eq!(write_summary(&ProgramGraph::new()), "0 nodes, 0 relationships\n");
}

#[test]
fn resolved_roots_are_kept_and_unresolved_ones_named() {
    assert_eq!(resolved_root("work/.", Some("/home/work".to_owned())).unwrap(), "/home/work");
    let error = resolved_root("work/.", None).unwrap_err();
    assert_eq!(error.message(), "cannot resolve project root work/.");
}

#[test]
fn node_counts_bound_the_indices() {
    let graph = test_graph();
    assert_eq!(plexus::graph::graph_node_count(&graph), 5);
    assert_eq!(plexus::graph::graph_node_count(&ProgramGraph::new()), 0);
}

#[test]
fn other_facts_and_repeated_containment_change_no_verdict() {
    let mut graph = test_graph();
    let file = find(&graph, "example.rs", NodeKind::File);
    let structure = find(&graph, "Counter", NodeKind::Struct);
    let function = find(&graph, "run", NodeKind::Function);
    graph.add_edge(file, structure, Relation::Contains);
    graph.add_edge(structure, function, Relation::Writes);
    graph.add_edge(function, file, Relation::Calls);
    assert!(write_json(&graph, ROOT).is_ok());
    assert!(write_compact(&graph, ROOT).is_ok());
}
