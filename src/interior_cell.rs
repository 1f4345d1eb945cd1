//! Cells of interior table pages.
use vstd::prelude::*;

verus! {

/// A cell of an interior table page: a child page and the row-id that bounds it.
#[derive(Clone, Copy, Debug, PartialEq, Eq, Structural)]
pub struct InteriorCell {
    /// The child page holding the row-ids below `rowid`.
    pub page_number: u32,
    pub rowid: i128,
}

} // verus!
