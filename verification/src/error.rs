//! Errors of the library, and the messages that describe them.
use vstd::prelude::*;

use crate::graph::{kind_display, NodeKind, Position, Range};
use crate::text::{debug_quoted, debug_text, digits, push_digits, push_str};

verus! {

/// Why a graph could not be rendered, or a workspace not read.
#[derive(Debug)]
pub enum PlexusError {
    /// Several nodes share name, kind and location.
    NoStableIdentity { name: String, kind: NodeKind, uri: String, range: Range },
    /// A file has more than one node of kind `file`.
    MultipleFileNodes { file: usize, previous: usize, node: usize },
    /// A containment edge joins nodes of different files.
    CrossFileContainment { source: usize, target: usize },
    /// A file node is contained in another node.
    FileNodeHasParent { node: usize },
    /// A node has two different containment parents.
    MultipleParents { node: usize, first: usize, second: usize },
    /// The containment chain above a node never reaches a root.
    CyclicContainment { node: usize },
    /// The project root could not be resolved.
    UnresolvedRoot { root: String },
    /// The language server answered with flat symbols for a document.
    FlatSymbols { uri: String },
    /// A path could not be written as a file URI.
    NotAFileUri { path: String },
    /// The language server offers no document symbols.
    NoDocumentSymbols,
    /// No file with the extension was found below the root.
    NoSourceFiles { extension: String, root: String },
}

/// How a position is shown in a message: `Position { line: L, character: C }`.
pub open spec fn position_text(p: Position) -> Seq<char> {
    "Position { line: "@ + digits(p.line as nat) + ", character: "@ + digits(p.character as nat) + " }"@
}

/// How a range is shown in a message:
/// `Range { start: Position { .. }, end: Position { .. } }`.
pub open spec fn range_text(r: Range) -> Seq<char> {
    "Range { start: "@ + position_text(r.start) + ", end: "@ + position_text(r.end) + " }"@
}

/// The message of an error.
pub open spec fn error_message(e: PlexusError) -> Seq<char> {
    match e {
        PlexusError::NoStableIdentity { name, kind, uri, range } => "nodes with name "@ + debug_text(name@)
            + ", kind "@ + kind_display(kind) + ", and location "@ + uri@ + " "@ + range_text(range)
            + " have no stable distinguishing identity"@,
        PlexusError::MultipleFileNodes { file, previous, node } => "file "@ + digits(file as nat)
            + " has multiple file nodes: "@ + digits(previous as nat) + " and "@ + digits(node as nat),
        PlexusError::CrossFileContainment { source, target } => "containment relationship "@ + digits(
            source as nat,
        ) + " -> "@ + digits(target as nat) + " crosses files"@,
        PlexusError::FileNodeHasParent { node } => "file node "@ + digits(node as nat)
            + " has a containment parent"@,
        PlexusError::MultipleParents { node, first, second } => "node "@ + digits(node as nat)
            + " has multiple containment parents: "@ + digits(first as nat) + " and "@ + digits(second as nat),
        PlexusError::CyclicContainment { node } => "containment relationship involving node "@ + digits(
            node as nat,
        ) + " is cyclic"@,
        PlexusError::UnresolvedRoot { root } => "cannot resolve project root "@ + root@,
        PlexusError::FlatSymbols { uri } => "language server returned flat symbols for "@ + uri@
            + "; Plexus requires hierarchical document symbols"@,
        PlexusError::NotAFileUri { path } => "cannot convert "@ + path@ + " to a file URI"@,
        PlexusError::NoDocumentSymbols => "language server does not provide document symbols"@,
        PlexusError::NoSourceFiles { extension, root } => "no ."@ + extension@ + " files found below "@ + root@,
    }
}

/// Appends the decimal digits of an index or count.
fn push_number(s: &mut String, n: usize)
    ensures
        final(s)@ == old(s)@ + digits(n as nat),
{
    push_digits(s, n as u64);
}

/// Appends how a position is shown in a message.
fn push_position(s: &mut String, p: Position)
    ensures
        final(s)@ == old(s)@ + position_text(p),
{
    let ghost start = s@;
    push_str(s, "Position { line: ");
    push_digits(s, p.line as u64);
    push_str(s, ", character: ");
    push_digits(s, p.character as u64);
    push_str(s, " }");
    assert(s@ =~= start + position_text(p));
}

impl PlexusError {
    /// The message that describes the error.
    pub fn message(&self) -> (m: String)
        ensures
            m@ == error_message(*self),
    {
        let mut m = String::new();
        match self {
            PlexusError::NoStableIdentity { name, kind, uri, range } => {
                push_str(&mut m, "nodes with name ");
                let quoted = debug_quoted(name.as_str());
                push_str(&mut m, quoted.as_str());
                push_str(&mut m, ", kind ");
                let shown = kind.display();
                push_str(&mut m, shown.as_str());
                push_str(&mut m, ", and location ");
                push_str(&mut m, uri.as_str());
                push_str(&mut m, " ");
                push_str(&mut m, "Range { start: ");
                push_position(&mut m, range.start);
                push_str(&mut m, ", end: ");
                push_position(&mut m, range.end);
                push_str(&mut m, " }");
                push_str(&mut m, " have no stable distinguishing identity");
            },
            PlexusError::MultipleFileNodes { file, previous, node } => {
                push_str(&mut m, "file ");
                push_number(&mut m, *file);
                push_str(&mut m, " has multiple file nodes: ");
                push_number(&mut m, *previous);
                push_str(&mut m, " and ");
                push_number(&mut m, *node);
            },
            PlexusError::CrossFileContainment { source, target } => {
                push_str(&mut m, "containment relationship ");
                push_number(&mut m, *source);
                push_str(&mut m, " -> ");
                push_number(&mut m, *target);
                push_str(&mut m, " crosses files");
            },
            PlexusError::FileNodeHasParent { node } => {
                push_str(&mut m, "file node ");
                push_number(&mut m, *node);
                push_str(&mut m, " has a containment parent");
            },
            PlexusError::MultipleParents { node, first, second } => {
                push_str(&mut m, "node ");
                push_number(&mut m, *node);
                push_str(&mut m, " has multiple containment parents: ");
                push_number(&mut m, *first);
                push_str(&mut m, " and ");
                push_number(&mut m, *second);
            },
            PlexusError::CyclicContainment { node } => {
                push_str(&mut m, "containment relationship involving node ");
                push_number(&mut m, *node);
                push_str(&mut m, " is cyclic");
            },
            PlexusError::UnresolvedRoot { root } => {
                push_str(&mut m, "cannot resolve project root ");
                push_str(&mut m, root.as_str());
            },
            PlexusError::FlatSymbols { uri } => {
                push_str(&mut m, "language server returned flat symbols for ");
                push_str(&mut m, uri.as_str());
                push_str(&mut m, "; Plexus requires hierarchical document symbols");
            },
            PlexusError::NotAFileUri { path } => {
                push_str(&mut m, "cannot convert ");
                push_str(&mut m, path.as_str());
                push_str(&mut m, " to a file URI");
            },
            PlexusError::NoDocumentSymbols => {
                push_str(&mut m, "language server does not provide document symbols");
            },
            PlexusError::NoSourceFiles { extension, root } => {
                push_str(&mut m, "no .");
                push_str(&mut m, extension.as_str());
                push_str(&mut m, " files found below ");
                push_str(&mut m, root.as_str());
            },
        }
        assert(m@ =~= error_message(*self));
        m
    }
}

} // verus!
