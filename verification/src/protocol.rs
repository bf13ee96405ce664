//! The decisions taken in the conversation with the language server: which
//! requests its capabilities allow, and when a request is sent again.
use vstd::prelude::*;

use crate::error::PlexusError;

verus! {

/// How many times a request is sent at most while the server gets ready.
pub const READY_ATTEMPTS: usize = 20;

/// A capability as a server announces it: not at all, as a flag, or with
/// options (which offer it).
#[derive(Clone, Copy, Debug, PartialEq, Eq, Structural)]
pub enum Capability {
    Absent,
    Flag(bool),
    Options,
}

/// The server offers the capability.
pub open spec fn offered(c: Capability) -> bool {
    c == Capability::Flag(true) || c == Capability::Options
}

/// Whether the server offers a capability.
pub fn supports(capability: Capability) -> (r: bool)
    ensures
        r == offered(capability),
{
    match capability {
        Capability::Flag(flag) => flag,
        Capability::Options => true,
        Capability::Absent => false,
    }
}

/// What the extraction asks of the server after the document symbols.
#[derive(Clone, Copy, Debug, PartialEq, Eq, Structural)]
pub struct Plan {
    /// Call hierarchies, for `calls` facts.
    pub calls: bool,
    /// References and document highlights, for `reads` and `writes` facts.
    pub accesses: bool,
}

/// What the extraction asks of a server with the given capabilities: it
/// needs document symbols; it asks for calls where the server offers call
/// hierarchies, and for accesses where it offers both references and
/// document highlights.
pub fn plan_extraction(
    document_symbols: Capability,
    call_hierarchy: Capability,
    references: Capability,
    highlights: Capability,
) -> (r: Result<Plan, PlexusError>)
    ensures
        offered(document_symbols) ==> r == Ok::<Plan, PlexusError>(
            Plan { calls: offered(call_hierarchy), accesses: offered(references) && offered(highlights) },
        ),
        !offered(document_symbols) ==> r matches Err(PlexusError::NoDocumentSymbols),
{
    if !supports(document_symbols) {
        return Err(PlexusError::NoDocumentSymbols);
    }
    Ok(Plan { calls: supports(call_hierarchy), accesses: supports(references) && supports(highlights) })
}

/// How the server answered a request.
#[derive(Clone, Copy, Debug, PartialEq, Eq, Structural)]
pub enum Reply {
    /// An answer with this many items (an absent list counts as none).
    Answered { items: usize },
    /// The error "content modified": the server is still busy with the
    /// documents.
    ContentModified,
    /// Any other error.
    Failed,
}

/// A request is sent again after attempt `attempt` (counted from zero) when
/// an attempt is left and the server answered "content modified".
pub open spec fn retries_request(attempt: nat, reply: Reply) -> bool {
    attempt + 1 < READY_ATTEMPTS && reply == Reply::ContentModified
}

/// Preparing a call hierarchy is sent again as other requests are, and also,
/// while the server is awaited, when it answered without items.
pub open spec fn retries_prepare(attempt: nat, wait_for_item: bool, reply: Reply) -> bool {
    attempt + 1 < READY_ATTEMPTS && (reply == Reply::ContentModified || (wait_for_item && reply
        == Reply::Answered { items: 0 }))
}

/// Whether a request is sent again (see `retries_request`).
pub fn retry_request(attempt: usize, reply: Reply) -> (r: bool)
    ensures
        r == retries_request(attempt as nat, reply),
{
    attempt < READY_ATTEMPTS - 1 && reply == Reply::ContentModified
}

/// Whether preparing a call hierarchy is sent again (see `retries_prepare`).
pub fn retry_prepare(attempt: usize, wait_for_item: bool, reply: Reply) -> (r: bool)
    ensures
        r == retries_prepare(attempt as nat, wait_for_item, reply),
{
    attempt < READY_ATTEMPTS - 1 && (reply == Reply::ContentModified || (wait_for_item && reply
        == Reply::Answered { items: 0 }))
}

/// Every request is answered or given up after `READY_ATTEMPTS` attempts:
/// no attempt from the last on is followed by another.
pub proof fn lemma_attempts_end(attempt: nat, wait_for_item: bool, reply: Reply)
    requires
        attempt + 1 >= READY_ATTEMPTS,
    ensures
        !retries_request(attempt, reply),
        !retries_prepare(attempt, wait_for_item, reply),
{
}

} // verus!
