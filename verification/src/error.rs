use vstd::prelude::*;

verus! {

/// The errors the catalog service can report.
#[derive(Clone, Copy, Debug, PartialEq, Eq, Structural)]
pub enum ArchiveError {
    /// A referenced entity is absent.
    NotFound,
    /// A page locator names a book that does not exist.
    InvalidLocation,
    /// A page locator ends before it begins, or carries a negative page
    /// number.
    InvalidRange,
    /// A score's title is empty, but a title is required.
    InvalidTitle,
    /// A search field name maps to no queryable attribute.
    InvalidSearchField,
    /// A score would be marked as printed on the back of itself.
    SelfReference,
    /// A client supplied an id on create, but ids are server-assigned.
    IdNotAllowed,
    /// The backing store detected a conflicting concurrent write.
    Conflict,
    /// The backing store stayed unreachable after bounded retries.
    Unavailable,
}

} // verus!
