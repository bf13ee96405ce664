//! The source documents of a project: which files are read, and the URIs
//! by which the language server knows them and the project root.
use vstd::prelude::*;

use crate::analysis::{ignored_name, SourceDocument};
use crate::error::PlexusError;
use crate::output::json::{directory_uri, directory_url};

verus! {

/// The `file` URI of an absolute path, or `None` where the path is not
/// absolute.
pub uninterp spec fn file_url(path: Seq<char>) -> Option<Seq<char>>;

/// The extension of the last component of a path, or `None` where it has
/// none.
pub uninterp spec fn extension_of(path: Seq<char>) -> Option<Seq<char>>;

/// The last component of a path, or `None` where it ends in `..` or is a
/// root.
pub uninterp spec fn last_component(path: Seq<char>) -> Option<Seq<char>>;

/// `Url::from_file_path`, written out. Named by `file_url`.
#[verifier::external_body]
fn file_uri(path: &str) -> (uri: Option<String>)
    ensures
        match uri {
            Some(u) => file_url(path@) == Some(u@),
            None => file_url(path@) is None,
        },
{
    match async_lsp::lsp_types::Url::from_file_path(path) {
        Ok(url) => Some(url.to_string()),
        Err(()) => None,
    }
}

/// `Path::extension`, written out with `to_string_lossy`. Named by
/// `extension_of`.
#[verifier::external_body]
fn path_extension(path: &str) -> (extension: Option<String>)
    ensures
        match extension {
            Some(e) => extension_of(path@) == Some(e@),
            None => extension_of(path@) is None,
        },
{
    match std::path::Path::new(path).extension() {
        Some(extension) => Some(extension.to_string_lossy().into_owned()),
        None => None,
    }
}

/// `Path::file_name`, written out with `to_string_lossy`. Named by
/// `last_component`.
#[verifier::external_body]
fn path_file_name(path: &str) -> (name: Option<String>)
    ensures
        match name {
            Some(n) => last_component(path@) == Some(n@),
            None => last_component(path@) is None,
        },
{
    match std::path::Path::new(path).file_name() {
        Some(name) => Some(name.to_string_lossy().into_owned()),
        None => None,
    }
}

/// Whether the file at `path` is a source file: its extension is
/// `extension`.
pub fn is_source(path: &str, extension: &str) -> (r: bool)
    ensures
        r == (extension_of(path@) == Some(extension@)),
{
    match path_extension(path) {
        Some(e) => crate::analysis::str_equal(e.as_str(), extension),
        None => false,
    }
}

/// The directory at `path` is left out of the search for source files.
pub open spec fn ignored_path(path: Seq<char>) -> bool {
    match last_component(path) {
        Some(name) => ignored_name(name),
        None => false,
    }
}

/// Whether the directory at `path` is left out of the search for source
/// files (see `ignored_name`).
pub fn ignored_directory_path(path: &str) -> (r: bool)
    ensures
        r == ignored_path(path@),
{
    match path_file_name(path) {
        Some(name) => crate::analysis::ignored_directory(name.as_str()),
        None => false,
    }
}

/// The document of the file at `path` with text `text`, known by the file
/// URI of its path; an error that names the path where it has none.
pub fn source_document(path: &str, text: String) -> (r: Result<SourceDocument, PlexusError>)
    ensures
        r matches Ok(d) ==> file_url(path@) == Some(d.uri@) && d.text@ == text@,
        r is Err <==> file_url(path@) is None,
        r matches Err(e) ==> e matches PlexusError::NotAFileUri { path: p } && p@ == path@,
{
    match file_uri(path) {
        Some(uri) => Ok(SourceDocument { uri, text }),
        None => Err(PlexusError::NotAFileUri { path: path.to_owned() }),
    }
}

/// The directory URI of the project root; an error that names the root
/// where it has none.
pub fn root_uri(root: &str) -> (r: Result<String, PlexusError>)
    ensures
        r matches Ok(u) ==> directory_url(root@) == Some(u@),
        r is Err <==> directory_url(root@) is None,
        r matches Err(e) ==> e matches PlexusError::NotAFileUri { path: p } && p@ == root@,
{
    match directory_uri(root) {
        Some(uri) => Ok(uri),
        None => Err(PlexusError::NotAFileUri { path: root.to_owned() }),
    }
}

/// A project must hold a source file: an error that names the extension
/// and the root where it holds none.
pub fn require_sources(count: usize, extension: &str, root: &str) -> (r: Result<(), PlexusError>)
    ensures
        count > 0 ==> r is Ok,
        count == 0 ==> (r matches Err(PlexusError::NoSourceFiles { extension: e, root: p }) && e@ == extension@
            && p@ == root@),
{
    if count == 0 {
        Err(PlexusError::NoSourceFiles { extension: extension.to_owned(), root: root.to_owned() })
    } else {
        Ok(())
    }
}

} // verus!
