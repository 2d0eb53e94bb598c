//! A headless document-rendering core: markup parsing, style-sheet parsing,
//! selector matching, cascade resolution, and box-model/flex layout over an
//! arena-of-nodes document tree.

pub mod color;
pub mod css;
pub mod custom_elements;
pub mod dom;
pub mod element;
pub mod error;
pub mod layout;
pub mod parser;
pub mod query;
pub mod screenshot;
pub mod style;
pub mod text;
