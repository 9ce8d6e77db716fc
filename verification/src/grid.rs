//! The grid itself: the calls into `h3o` that decide validity and walk the hierarchy.
//!
//! Nothing here is proved. Each contract restates, over the layout of
//! [`crate::index`], what the source of `h3o` shows of the function that is called.
use crate::index::{ancestor_at, descendants, is_cell, resolution_of};
use crate::seqs::ascending;
use h3o::{CellIndex, Resolution};
use vstd::prelude::*;

verus! {

/// `h3o::CellIndex::try_from(u64)`: accepts exactly the integers that have the layout
/// of a cell index.
#[verifier::external_body]
pub(crate) fn index_is_valid(value: u64) -> (ok: bool)
    ensures
        ok == is_cell(value),
{
    CellIndex::try_from(value).is_ok()
}

/// `h3o::Resolution::try_from(u8)`: accepts 0 to 15.
#[verifier::external_body]
pub(crate) fn resolution_is_valid(value: u8) -> (ok: bool)
    ensures
        ok == (value <= 15),
{
    Resolution::try_from(value).is_ok()
}

/// `h3o::CellIndex::resolution`: reads the resolution field.
#[verifier::external_body]
pub(crate) fn cell_resolution(cell: u64) -> (res: u8)
    requires
        is_cell(cell),
    ensures
        res == resolution_of(cell),
{
    u8::from(CellIndex::try_from(cell).unwrap().resolution())
}

/// `h3o::CellIndex::parent`: for a resolution up to the cell's own, writes the
/// resolution into its field and marks the digits beyond it as unused.
#[verifier::external_body]
pub(crate) fn cell_ancestor(cell: u64, res: u8) -> (ancestor: u64)
    requires
        is_cell(cell),
        res <= resolution_of(cell),
    ensures
        ancestor == ancestor_at(cell, res as int),
{
    let index = CellIndex::try_from(cell).unwrap();
    u64::from(index.parent(Resolution::try_from(res).unwrap()).unwrap())
}

/// `h3o::CellIndex::children`: lists, in rising order of their indexes, the cells of
/// resolution `res` whose ancestor at the resolution of `cell` is `cell`; nothing where
/// `res` is coarser than the cell.
#[verifier::external_body]
pub(crate) fn cell_children(cell: u64, res: u8) -> (list: Vec<u64>)
    requires
        is_cell(cell),
        res <= 15,
    ensures
        ascending(list@),
        list@.to_set() == descendants(cell, res as int),
{
    let index = CellIndex::try_from(cell).unwrap();
    index.children(Resolution::try_from(res).unwrap()).map(u64::from).collect()
}

} // verus!
