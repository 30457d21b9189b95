//! The failures that store and operation calls report.
use crate::address::Address;
use vstd::prelude::*;

verus! {

/// A failure of a palette operation, with the offending address where there
/// is one.
#[derive(Debug, Clone, Copy, PartialEq, Eq, Structural)]
pub enum Error {
    /// A cell was to be created where one already exists.
    SlotOccupied(Address),
    /// A cell was to be removed or read where none exists.
    SlotEmpty(Address),
    /// Fewer free addresses remain than were asked for.
    InsufficientSpace,
    /// No address of the palette is free.
    PaletteFull,
    /// A dependency names an address that holds no cell.
    MissingSource(Address),
    /// A mixed cell lists fewer sources than its mixer reads, or its mixer's
    /// parameters are out of range.
    MalformedElement(Address),
    /// Resolving a color came back to a cell already being resolved.
    CyclicDependency(Address),
    /// An undo record says a cell must be deleted where none exists.
    InvalidState(Address),
}

} // verus!
