//! Decentralized-identity (DID) documents with a structural diff engine.
//!
//! The crate models DID identifiers and documents, validates and upserts
//! their key, authentication and service collections, serializes them to a
//! JSON wire form, and computes/replays minimal ordered edit scripts
//! between two document snapshots.

pub mod codec;
pub mod did;
pub mod diff;
pub mod doc;
pub mod jsonparse;
pub mod policy;
pub mod jsonval;

use vstd::prelude::*;

verus! {

/// The failure taxonomy: every fallible operation of the crate reports one
/// of these and leaves its operands unchanged.
#[derive(Debug, Clone, Copy, PartialEq, Eq, Structural)]
pub enum Error {
    /// A malformed identifier or malformed document text.
    Parse,
    /// A rejected mutation: duplicate or ambiguous key material, a reserved
    /// metadata key, or re-stamping of timestamps.
    Validation,
    /// An edit script that addresses a missing slot or nests improperly.
    DiffApply,
}

} // verus!
