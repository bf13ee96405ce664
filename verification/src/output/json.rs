//! The canonical JSON document of a graph, `plexus/graph@1`: its schema and
//! position conventions, the project root as a directory URI, and the files,
//! nodes and edges of the canonical snapshot with full ranges.
use vstd::prelude::*;

use crate::error::PlexusError;
use crate::graph::{kind_display, NodeKind, ProgramGraph};
use crate::output::{
    canonical_root, renderable, snapshot_error, snapshot_of, ExportEdge, Snapshot,
};

verus! {

/// How positions are counted: UTF-16 code units from zero, ends exclusive.
#[derive(Debug)]
pub struct Positions {
    pub encoding: String,
    pub base: u8,
    pub end_exclusive: bool,
}

/// A node of the document; its range is start line, start character, end
/// line, end character.
#[derive(Debug)]
pub struct JsonNode {
    pub id: usize,
    pub kind: NodeKind,
    pub name: String,
    pub file: usize,
    pub range: [u32; 4],
}

/// How the document writes a kind: by its name, or, for a kind outside the
/// protocol's numbering, by its number.
#[derive(Debug)]
pub enum KindValue {
    Name(String),
    Code(i32),
}

/// How the document writes `kind`.
pub fn kind_value(kind: NodeKind) -> (v: KindValue)
    ensures
        match kind {
            NodeKind::Unknown(code) => v matches KindValue::Code(c) && c == code,
            _ => v matches KindValue::Name(name) && name@ == kind_display(kind),
        },
{
    match kind {
        NodeKind::Unknown(code) => KindValue::Code(code),
        _ => KindValue::Name(kind.display()),
    }
}

/// The whole document, field by field in the order in which it is written.
#[derive(Debug)]
pub struct JsonDocument {
    pub schema: String,
    pub positions: Positions,
    pub root: String,
    pub files: Vec<String>,
    pub nodes: Vec<JsonNode>,
    pub edges: Vec<ExportEdge>,
}

/// The schema that the document declares.
pub open spec fn schema_name() -> Seq<char> {
    "plexus/graph@1"@
}

/// The schema name.
pub fn schema() -> (s: String)
    ensures
        s@ == schema_name(),
{
    "plexus/graph@1".to_owned()
}

/// `doc` is the document of snapshot `s` with the given root URI.
pub open spec fn documents(doc: JsonDocument, s: Snapshot, root: Seq<char>) -> bool {
    &&& doc.schema@ == schema_name()
    &&& doc.positions.encoding@ == "utf-16"@
    &&& doc.positions.base == 0
    &&& doc.positions.end_exclusive
    &&& doc.root@ == root
    &&& doc.files@.len() == s.files@.len()
    &&& forall|f: int| 0 <= f < s.files.len() ==> (#[trigger] doc.files@[f])@ == s.files@[f]@
    &&& doc.nodes@.len() == s.nodes@.len()
    &&& forall|p: int|
        0 <= p < s.nodes.len() ==> {
            let n = s.nodes@[p];
            let d = #[trigger] doc.nodes@[p];
            &&& d.id == n.id
            &&& d.kind == n.kind
            &&& d.name@ == n.name@
            &&& d.file == n.file
            &&& d.range@ == seq![
                n.range.start.line,
                n.range.start.character,
                n.range.end.line,
                n.range.end.character,
            ]
        }
    &&& doc.edges@ == s.edges@
}

/// The document of a snapshot, with the given root URI.
pub fn document(s: &Snapshot, root: String) -> (doc: JsonDocument)
    ensures
        documents(doc, *s, root@),
{
    let mut files: Vec<String> = Vec::new();
    let mut f: usize = 0;
    while f < s.files.len()
        invariant
            f <= s.files.len(),
            files.len() == f,
            forall|g: int| 0 <= g < f ==> (#[trigger] files@[g])@ == s.files@[g]@,
        decreases s.files.len() - f,
    {
        files.push(s.files[f].clone());
        f = f + 1;
    }
    let mut nodes: Vec<JsonNode> = Vec::new();
    let mut p: usize = 0;
    while p < s.nodes.len()
        invariant
            p <= s.nodes.len(),
            nodes.len() == p,
            forall|q: int|
                0 <= q < p ==> {
                    let n = s.nodes@[q];
                    let d = #[trigger] nodes@[q];
                    &&& d.id == n.id
                    &&& d.kind == n.kind
                    &&& d.name@ == n.name@
                    &&& d.file == n.file
                    &&& d.range@ == seq![
                        n.range.start.line,
                        n.range.start.character,
                        n.range.end.line,
                        n.range.end.character,
                    ]
                },
        decreases s.nodes.len() - p,
    {
        let n = &s.nodes[p];
        let range = [
            n.range.start.line,
            n.range.start.character,
            n.range.end.line,
            n.range.end.character,
        ];
        assert(range@ =~= seq![
            n.range.start.line,
            n.range.start.character,
            n.range.end.line,
            n.range.end.character,
        ]);
        nodes.push(JsonNode { id: n.id, kind: n.kind, name: n.name.clone(), file: n.file, range });
        p = p + 1;
    }
    let mut edges: Vec<ExportEdge> = Vec::new();
    let mut k: usize = 0;
    while k < s.edges.len()
        invariant
            k <= s.edges.len(),
            edges@ == s.edges@.take(k as int),
        decreases s.edges.len() - k,
    {
        edges.push(s.edges[k]);
        assert(edges@ =~= s.edges@.take(k + 1));
        k = k + 1;
    }
    assert(edges@ =~= s.edges@);
    JsonDocument {
        schema: schema(),
        positions: Positions { encoding: "utf-16".to_owned(), base: 0, end_exclusive: true },
        root,
        files,
        nodes,
        edges,
    }
}

/// The URI of a directory path, as `Url::from_directory_path` writes it;
/// `None` where the path is not absolute.
pub uninterp spec fn directory_url(path: Seq<char>) -> Option<Seq<char>>;

/// `Url::from_directory_path`, written out; named by `directory_url`.
#[verifier::external_body]
pub(crate) fn directory_uri(path: &str) -> (uri: Option<String>)
    ensures
        match uri {
            Some(u) => directory_url(path@) == Some(u@),
            None => directory_url(path@) is None,
        },
{
    match async_lsp::lsp_types::Url::from_directory_path(path) {
        Ok(url) => Some(url.to_string()),
        Err(()) => None,
    }
}

/// The JSON document of a graph, rooted at the canonical form of `root`.
/// It fails where the root cannot be resolved or written as a URI, or the
/// graph has no canonical snapshot. Which canonical form the file system
/// gives the root is not stated here; `document` states the document for
/// each.
pub fn write_json(graph: &ProgramGraph, root: &str) -> (r: Result<JsonDocument, PlexusError>)
    ensures
        r matches Ok(doc) ==> exists|s: Snapshot, resolved: Seq<char>|
            snapshot_of(*graph, s) && directory_url(resolved) == Some(doc.root@) && documents(
                doc,
                s,
                doc.root@,
            ),
        r matches Err(e) ==> (e matches PlexusError::UnresolvedRoot { root: named } && named@
            == root@) || (e matches PlexusError::NotAFileUri { path } && directory_url(path@) is None)
            || (!renderable(*graph) && snapshot_error(*graph, e)),
        !renderable(*graph) ==> r is Err,
{
    match canonical_root(root) {
        Ok(resolved) => json_for(graph, resolved.as_str()),
        Err(e) => Err(e),
    }
}

/// The JSON document of a graph, rooted at the directory URI of the resolved
/// root `resolved`. It fails where the root has no directory URI, or the
/// graph has no canonical snapshot.
pub fn json_for(graph: &ProgramGraph, resolved: &str) -> (r: Result<JsonDocument, PlexusError>)
    ensures
        directory_url(resolved@) is None ==> (r matches Err(PlexusError::NotAFileUri { path }) && path@
            == resolved@),
        directory_url(resolved@) matches Some(u) ==> match r {
            Ok(doc) => exists|s: Snapshot| snapshot_of(*graph, s) && documents(doc, s, u),
            Err(e) => !renderable(*graph) && snapshot_error(*graph, e),
        },
        directory_url(resolved@) is Some ==> (renderable(*graph) <==> r is Ok),
{
    let root_uri = match directory_uri(resolved) {
        Some(uri) => uri,
        None => return Err(PlexusError::NotAFileUri { path: resolved.to_owned() }),
    };
    match Snapshot::new(graph) {
        Ok(snapshot) => {
            let doc = document(&snapshot, root_uri);
            assert(snapshot_of(*graph, snapshot) && documents(doc, snapshot, doc.root@));
            Ok(doc)
        },
        Err(e) => Err(e),
    }
}

} // verus!
