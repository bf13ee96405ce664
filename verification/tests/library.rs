use plexus::error::PlexusError;
use plexus::graph::{NodeKind, Position, Range, Relation};
use plexus::protocol::{
    plan_extraction, retry_prepare, retry_request, supports, Capability, Plan, Reply, READY_ATTEMPTS,
};
use plexus::text::{decimal, write_escaped};

#[test]
fn kinds_follow_the_protocol_numbering() {
    assert_eq!(NodeKind::from_code(1), NodeKind::File);
    assert_eq!(NodeKind::from_code(12), NodeKind::Function);
    assert_eq!(NodeKind::from_code(26), NodeKind::TypeParameter);
    assert_eq!(NodeKind::from_code(0), NodeKind::Unknown(0));
    assert_eq!(NodeKind::from_code(99), NodeKind::Unknown(99));
    assert_eq!(NodeKind::Function.display(), "function");
    assert_eq!(NodeKind::EnumMember.display(), "enum_member");
    assert_eq!(NodeKind::TypeParameter.display(), "type_parameter");
    assert_eq!(NodeKind::Unknown(-7).display(), "-7");
}

#[test]
fn relations_have_names() {
    assert_eq!(Relation::Contains.as_str(), "contains");
    assert_eq!(Relation::Calls.as_str(), "calls");
    assert_eq!(Relation::Reads.as_str(), "reads");
    assert_eq!(Relation::Writes.as_str(), "writes");
}

#[test]
fn escapes_backslashes_and_line_breaks() {
    let mut output = String::from(">");
    write_escaped(&mut output, "a\\b\nc\rd\te");
    assert_eq!(output, ">a\\\\b\\nc\\rd\te");
}

#[test]
fn writes_decimals() {
    assert_eq!(decimal(0), "0");
    assert_eq!(decimal(-42), "-42");
    assert_eq!(decimal(i32::MIN), "-2147483648");
    assert_eq!(decimal(1907), "1907");
}

#[test]
fn every_error_has_its_message() {
    let range = Range {
        start: Position { line: 1, character: 2 },
        end: Position { line: 3, character: 4 },
    };
    let cases = vec![
        (
            PlexusError::NoStableIdentity {
                name: "run \"x\"".to_owned(),
                kind: NodeKind::Function,
                uri: "file:///a.rs".to_owned(),
                range,
            },
            "nodes with name \"run \\\"x\\\"\", kind function, and location file:///a.rs Range { start: Position { line: 1, character: 2 }, end: Position { line: 3, character: 4 } } have no stable distinguishing identity",
        ),
        (
            PlexusError::MultipleFileNodes { file: 0, previous: 1, node: 2 },
            "file 0 has multiple file nodes: 1 and 2",
        ),
        (
            PlexusError::CrossFileContainment { source: 3, target: 4 },
            "containment relationship 3 -> 4 crosses files",
        ),
        (PlexusError::FileNodeHasParent { node: 5 }, "file node 5 has a containment parent"),
        (
            PlexusError::MultipleParents { node: 6, first: 7, second: 8 },
            "node 6 has multiple containment parents: 7 and 8",
        ),
        (
            PlexusError::CyclicContainment { node: 9 },
            "containment relationship involving node 9 is cyclic",
        ),
        (
            PlexusError::UnresolvedRoot { root: "/x".to_owned() },
            "cannot resolve project root /x",
        ),
        (
            PlexusError::FlatSymbols { uri: "file:///b.zig".to_owned() },
            "language server returned flat symbols for file:///b.zig; Plexus requires hierarchical document symbols",
        ),
        (
            PlexusError::NotAFileUri { path: "relative".to_owned() },
            "cannot convert relative to a file URI",
        ),
        (PlexusError::NoDocumentSymbols, "language server does not provide document symbols"),
        (
            PlexusError::NoSourceFiles { extension: "zig".to_owned(), root: "/w".to_owned() },
            "no .zig files found below /w",
        ),
    ];
    for (error, message) in cases {
        assert_eq!(error.message(), message);
    }
}

#[test]
fn capabilities_decide_the_requests() {
    assert!(!supports(Capability::Absent));
    assert!(!supports(Capability::Flag(false)));
    assert!(supports(Capability::Flag(true)));
    assert!(supports(Capability::Options));

    let plan = plan_extraction(
        Capability::Options,
        Capability::Flag(true),
        Capability::Flag(true),
        Capability::Absent,
    )
    .unwrap();
    assert_eq!(plan, Plan { calls: true, accesses: false });
    let plan = plan_extraction(
        Capability::Flag(true),
        Capability::Flag(false),
        Capability::Options,
        Capability::Options,
    )
    .unwrap();
    assert_eq!(plan, Plan { calls: false, accesses: true });
    let error = plan_extraction(
        Capability::Flag(false),
        Capability::Options,
        Capability::Options,
        Capability::Options,
    )
    .unwrap_err();
    assert!(matches!(error, PlexusError::NoDocumentSymbols));
}

#[test]
fn requests_are_retried_while_the_server_is_busy() {
    assert_eq!(READY_ATTEMPTS, 20);
    assert!(retry_request(0, Reply::ContentModified));
    assert!(retry_request(18, Reply::ContentModified));
    assert!(!retry_request(19, Reply::ContentModified));
    assert!(!retry_request(0, Reply::Failed));
    assert!(!retry_request(0, Reply::Answered { items: 0 }));

    assert!(retry_prepare(0, true, Reply::Answered { items: 0 }));
    assert!(!retry_prepare(0, false, Reply::Answered { items: 0 }));
    assert!(!retry_prepare(0, true, Reply::Answered { items: 2 }));
    assert!(retry_prepare(3, false, Reply::ContentModified));
    assert!(!retry_prepare(19, true, Reply::Answered { items: 0 }));
    assert!(!retry_prepare(5, true, Reply::Failed));
}

#[test]
fn escaped_names_hold_no_line_breaks() {
    let mut first = String::new();
    write_escaped(&mut first, "a\nb");
    let mut second = String::new();
    write_escaped(&mut second, "a\\nb");
    assert!(!first.contains('\n') && !first.contains('\r'));
    assert_ne!(first, second);
    assert_eq!(first, "a\\nb");
    assert_eq!(second, "a\\\\nb");
}
