//! A verified note store and query engine.
//!
//! A notefile is an ordered collection of notes, each carrying a unique,
//! user-chosen id, a title and body, two timestamps, and an
//! insertion-ordered, duplicate-free tag list ([`types`]). The crate
//! proves its central guarantees: the byte codec round-trips every
//! notefile exactly ([`codec`]), the store operations keep ids unique and
//! tag lists duplicate-free and toggling a tag twice restores the tag set
//! ([`store`]), the searches return matches in notefile order ([`query`]),
//! and highlighting loses no text ([`highlight`]).
//!
//! The store never performs I/O: the caller loads bytes, decodes them,
//! works on the in-memory notefile, encodes and writes the result back.
//! Mutations take the current time as an explicit argument.

pub mod types;
pub mod store;
pub mod query;
pub mod text;
pub mod codec;
pub mod highlight;

use vstd::prelude::*;

verus! {

/// A typed failure of a store or codec operation.
#[derive(Debug, PartialEq, Eq, Clone, Copy)]
pub enum NoteError {
    /// The bytes handed to `decode` are not a valid encoding of a notefile.
    FormatError,
    /// An operation referenced an id that is absent from the notefile.
    NotFound,
    /// An insert was attempted with an id that is already present.
    AlreadyExists,
    /// Authored text equals the unmodified template: treat as "no content".
    EmptyContent,
}

} // verus!
