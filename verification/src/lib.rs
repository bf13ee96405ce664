//! Plexus: a deterministic program graph built from the direct facts that a
//! language server reports, and its canonical renderings.
pub mod external;
pub mod text;
pub mod graph;
pub mod identity;
pub mod sorting;
pub mod seqs;
pub mod error;
pub mod output;
pub mod mutation;
pub mod analysis;
pub mod protocol;
pub mod extraction;
pub mod sources;
