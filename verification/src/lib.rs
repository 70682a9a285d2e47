//! Access to the GDTF Share API and an indexed, queryable library of its fixture entries.
use vstd::prelude::*;

pub mod client;
pub mod error;
pub mod http;
pub mod index;
pub mod library;
pub mod order;
pub mod query;
pub mod revision;
pub mod text;

pub use client::Client;
pub use error::{Error, Result};
pub use index::Bound;
pub use library::Library;
pub use query::Query;
pub use revision::RevisionId;

verus! {

/// The cookie of a logged-in GDTF Share session.
#[derive(Debug, Clone)]
pub struct Session {
    pub cookie: String,
}

/// One fixture revision as the GDTF Share lists it.
#[derive(Debug, Clone)]
pub struct Entry {
    pub rid: RevisionId,
    pub fixture: String,
    pub manufacturer: String,
    pub description: Option<String>,
    pub revision: String,
    pub creation_date: u64,
    pub last_modified: u64,
    pub uploader: String,
    pub rating: String,
    pub version: String,
    pub creator: String,
    /// The fixture's UUID, as its 128-bit value (most significant byte first).
    pub uuid: Option<u128>,
    pub filesize: u64,
    pub modes: Vec<GdtfMode>,
}

/// A DMX mode of a fixture.
#[derive(Debug, Clone)]
pub struct GdtfMode {
    pub name: String,
    pub dmxfootprint: i32,
}

} // verus!
