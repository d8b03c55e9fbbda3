//! The errors of reference resolution.
use vstd::prelude::*;

use crate::location::{DocLocation, Location};

verus! {

/// Mathematical model of a [`RefError`].
pub enum Fault {
    InvalidPointer(Seq<char>),
    Io(Seq<char>),
    Parse(Seq<char>),
    Transport(Seq<char>),
    KeyNotFound(Seq<char>),
    IndexOutOfBounds(Seq<char>),
    InvalidIndex(Seq<char>),
    NotTraversable(Seq<char>),
    CircularReference(Seq<char>),
    DocumentNotLoaded(Location),
}

/// Why a reference could not be resolved. Each variant carries the offending
/// pointer, segment or reference text, or the document's location.
#[derive(Debug, PartialEq, Eq)]
pub enum RefError {
    /// A pointer text that is not a valid JSON Pointer.
    InvalidPointer(String),
    /// A file that could not be read.
    Io(String),
    /// Text that is not valid YAML or JSON.
    Parse(String),
    /// A network request that failed or was answered with an error status.
    Transport(String),
    /// A mapping without the pointer's next segment as a key.
    KeyNotFound(String),
    /// A sequence index past the end.
    IndexOutOfBounds(String),
    /// A segment that is not a sequence index.
    InvalidIndex(String),
    /// A scalar where the pointer asks for a child.
    NotTraversable(String),
    /// A reference met again on its own resolution chain.
    CircularReference(String),
    /// The document at this location has not been loaded yet: load it with
    /// [`crate::resolver::RefResolver::add_document`] and resolve again.
    DocumentNotLoaded(DocLocation),
}

impl View for RefError {
    type V = Fault;

    open spec fn view(&self) -> Fault {
        match self {
            RefError::InvalidPointer(s) => Fault::InvalidPointer(s@),
            RefError::Io(s) => Fault::Io(s@),
            RefError::Parse(s) => Fault::Parse(s@),
            RefError::Transport(s) => Fault::Transport(s@),
            RefError::KeyNotFound(s) => Fault::KeyNotFound(s@),
            RefError::IndexOutOfBounds(s) => Fault::IndexOutOfBounds(s@),
            RefError::InvalidIndex(s) => Fault::InvalidIndex(s@),
            RefError::NotTraversable(s) => Fault::NotTraversable(s@),
            RefError::CircularReference(s) => Fault::CircularReference(s@),
            RefError::DocumentNotLoaded(l) => Fault::DocumentNotLoaded(l@),
        }
    }
}

} // verus!
