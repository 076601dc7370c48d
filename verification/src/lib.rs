//! Incremental analysis pipeline and semantic-token engine of a language
//! server for a feature-modeling language and its JSON configuration
//! files: drafts under edit, a debounced link stage that assembles
//! cross-file snapshots, and the translation of parse trees into
//! protocol semantic-token deltas.

pub mod color;
pub mod document;
pub mod link;
pub mod lsp;
pub mod pipeline;
pub mod rope;
pub mod text;
