//! A template-driven file-tree rendering and merge engine. A directory of
//! templates is held as an in-memory tree; each template path may carry a
//! conditional or collection directive; rendering expands every template
//! against a data context, exposing prior file content for additive
//! regeneration, and the result is merged right-biased into the existing
//! tree. The tree model, the path grammar, the expansion bookkeeping and the
//! merge are verified; the text templating itself is done by handlebars
//! behind a small trusted boundary.

pub mod cli;
pub mod data;
pub mod directive;
pub mod engine;
pub mod error;
pub mod file_tree;
pub mod laws;
pub mod merge;
pub mod templates;
pub mod text;
