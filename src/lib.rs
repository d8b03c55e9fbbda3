//! Resolution of `$ref` pointers in YAML/JSON specification documents.
//!
//! A [`resolver::RefResolver`] holds the loaded documents and the subtrees
//! resolved from them; [`resolver::RefResolver::resolve_recursive`] expands
//! every `$ref` in a document. Reading files and fetching URLs is left to the
//! caller, who hands in each document that a resolution asks for.
pub mod document;
pub mod error;
pub mod expand;
pub mod location;
pub mod pointer;
pub mod resolver;
pub mod value;
pub mod wire;
