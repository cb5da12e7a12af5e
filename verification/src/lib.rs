//! The logic of a language server for one-shot prompt files: `@path`
//! references, their positions in a document, fuzzy path search, hover
//! previews, and the choice of the project root they are resolved against.

pub mod chars;
pub mod format;
pub mod hover;
pub mod index;
pub mod laws;
pub mod limits;
pub mod partial;
pub mod path;
pub mod prose;
pub mod rank;
pub mod refs;
pub mod root;
pub mod seqs;
pub mod server;
pub mod setup;
pub mod stats;
pub mod text;
