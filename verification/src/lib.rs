//! Deterministic tier-1 keyword and identifier extraction.
//!
//! Raw file in, ranked keywords out. Every score derives from the document itself plus
//! pinned static resources: there is no document-frequency table and no cross-document
//! state, so a document's keyword set is a function of `(bytes, config, resources)`.

pub mod serde_hex;
pub mod text;
pub mod tokenize;
pub mod error;
pub mod types;
pub mod config;
pub mod render;
pub mod prose;
pub mod parse;
pub mod resources;
pub mod stages;
pub mod version;
pub mod digest;
pub mod canonical;
pub mod pipeline;
pub mod fixpoint;
pub mod language;
pub mod tally;

pub use pipeline::canonicalise;
