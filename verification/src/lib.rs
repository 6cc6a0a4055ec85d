//! Content revisioning and discussion engine.
//!
//! The crate keeps every edit of a content item as an immutable revision,
//! attaches typed attribute values to each revision, and maintains a
//! strictly ordered comment thread per content item using a compact
//! lexicographically sortable path encoding.
//!
//! [`vancode`] holds the base-36 digit-group codec, [`text`] the teaser
//! and subject derivations, [`parse`] the typed input coercions,
//! [`records`] the data model, [`thread`] the path arithmetic and the
//! comment summary aggregate, and [`store`] the backing store with the
//! operations of the revision store, the dynamic field engine and the
//! comment thread engine. [`site`] carries the plain records of the
//! surrounding site administration. Storage, clock and identity are the
//! caller's collaborators: the store is an owned value, timestamps and
//! author ids are passed in, and a moderation decision arrives as a
//! ready [`records::CommentStatus`].

pub mod inputs;
pub mod parse;
pub mod records;
pub mod site;


pub mod store;
pub mod strutil;
pub mod text;
pub mod thread;
pub mod vancode;

use vstd::prelude::*;

verus! {

/// Error taxonomy of the engine.
///
/// `NotFound`: a content item, comment or schema entry is missing.
/// `ValidationError`: bad input detected before any write happens.
/// `Conflict`: a thread-path collision that could not be resolved.
/// `StorageFailure`: the backing store cannot take further writes
/// (for this in-memory store: an identifier space is exhausted).
#[derive(Clone, Copy, Debug, PartialEq, Eq, Structural)]
pub enum CoreError {
    NotFound,
    ValidationError,
    Conflict,
    StorageFailure,
}

} // verus!
