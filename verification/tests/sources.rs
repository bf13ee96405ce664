use plexus::analysis::file_name;
use plexus::error::PlexusError;
use plexus::graph::{Location, Node, NodeKind, Position, ProgramGraph, Range, Relation};
use plexus::output::compact::compact_for;
use plexus::output::json::json_for;
use plexus::sources::{ignored_directory_path, is_source, require_sources, root_uri, source_document};

#[test]
fn documents_are_known_by_file_uris() {
    let document = source_document("/work/src/lib.rs", "fn main() {}".to_owned()).unwrap();
    assert_eq!(document.uri, "file:///work/src/lib.rs");
    assert_eq!(document.text, "fn main() {}");
    let error = source_document("src/lib.rs", String::new()).unwrap_err();
    assert!(matches!(error, PlexusError::NotAFileUri { ref path } if path == "src/lib.rs"));
}

#[test]
fn roots_are_known_by_directory_uris() {
    assert_eq!(root_uri("/work").unwrap(), "file:///work/");
    assert_eq!(root_uri("work").unwrap_err().message(), "cannot convert work to a file URI");
}

#[test]
fn sources_are_chosen_by_extension_and_directory() {
    assert!(is_source("/work/src/lib.rs", "rs"));
    assert!(!is_source("/work/src/lib.rs", "zig"));
    assert!(!is_source("/work/.rs", "rs"));
    assert!(!is_source("/work/Makefile", "rs"));
    assert!(ignored_directory_path("/work/target"));
    assert!(ignored_directory_path("/work/.git"));
    assert!(!ignored_directory_path("/work/src"));
    assert!(!ignored_directory_path("/"));
}

#[test]
fn a_project_needs_a_source_file() {
    assert!(require_sources(3, "rs", "/work").is_ok());
    let error = require_sources(0, "rs", "/work").unwrap_err();
    assert_eq!(error.message(), "no .rs files found below /work");
}

#[test]
fn file_nodes_are_named_by_the_last_segment() {
    assert_eq!(file_name("file:///work/src/lib.rs"), "lib.rs");
    assert_eq!(file_name("file:///"), "");
    assert_eq!(file_name("mailto:someone@example.com"), "someone@example.com");
    assert_eq!(file_name("not a uri"), "not a uri");
}

fn one_file_graph() -> ProgramGraph {
    let uri = "file:///work/src/lib.rs".to_owned();
    let mut graph = ProgramGraph::new();
    let file = graph.add_node(Node {
        name: "lib.rs".to_owned(),
        kind: NodeKind::File,
        location: Location {
            uri: uri.clone(),
            range: Range { start: Position { line: 0, character: 0 }, end: Position { line: 3, character: 0 } },
        },
    });
    let function = graph.add_node(Node {
        name: "run".to_owned(),
        kind: NodeKind::Function,
        location: Location {
            uri,
            range: Range { start: Position { line: 1, character: 0 }, end: Position { line: 2, character: 0 } },
        },
    });
    graph.add_edge(file, function, Relation::Contains);
    graph
}

#[test]
fn renderings_use_the_resolved_root() {
    let graph = one_file_graph();
    let text = compact_for(&graph, "/work").unwrap();
    assert_eq!(text, "plexus/1 positions=utf-16,zero-based\n\n@0 src/lib.rs\n1 fn 1:0 run\n");
    let document = json_for(&graph, "/work").unwrap();
    assert_eq!(document.root, "file:///work/");
    let error = json_for(&graph, "work").unwrap_err();
    assert!(matches!(error, PlexusError::NotAFileUri { ref path } if path == "work"));
}
