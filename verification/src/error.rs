//! Typed errors surfaced by the store.

use vstd::prelude::*;

verus! {

/// An operation-level failure of the store.
///
/// Parse failures of single metadata lines are local and reported per
/// line as `codec::ParseError`; they never abort a whole operation.
#[derive(Clone, Copy, Debug, PartialEq, Eq, Structural)]
pub enum StoreError {
    /// A query embedding's dimension differs from the store's dimension.
    /// A programming error on the caller's side: reported loudly, never
    /// silently coerced.
    DimensionMismatch,
    /// Recovered vector log bytes do not hold a whole number of
    /// fixed-width entries: a partial append was detected.
    TruncatedEntry,
    /// Recovered logs disagree on how many records they hold, so the
    /// ordinal correspondence between them is broken.
    LogCountMismatch,
}

} // verus!
