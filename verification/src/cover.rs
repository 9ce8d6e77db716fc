//! Covering polygons with cells.
//!
//! The grid lists the cells of a polygon from its coordinates, which this library
//! does not hold. So a cover is made in two steps: [`cover_request`] says at which
//! resolution and in which mode the grid is to list, and [`polygon_to_cells`] or
//! [`multipolygon_to_cells`] makes the cover of what it listed.
use crate::dedup::{first_occurrences, lemma_first_occurrences, unique};
use crate::error::Error;
use crate::grid::{cell_resolution, index_is_valid, resolution_is_valid};
use crate::index::{is_cell, resolution_of};
use crate::seqs::lemma_concat_contains;
use vstd::prelude::*;

verus! {

/// `h3o::error::InvalidGeometry`: why the grid refused rings. Carried through, never
/// read.
#[verifier::external_type_specification]
#[verifier::external_body]
pub struct ExInvalidGeometry(h3o::error::InvalidGeometry);

/// How much of a cell must lie in a polygon for the grid to list the cell.
#[derive(Clone, Copy, Debug, PartialEq, Eq, Structural)]
pub enum Containment {
    /// The centre of the cell lies in the polygon.
    Centroid,
    /// The whole of the cell lies in the polygon.
    Within,
    /// Any part of the cell lies in the polygon, or the polygon lies in the cell.
    Covers,
}

/// What the grid is asked to list for a polygon.
#[derive(Clone, Copy, Debug, PartialEq, Eq, Structural)]
pub struct CoverRequest {
    pub resolution: u8,
    pub containment: Containment,
}

/// What the grid lists for a polygon, or why it refused the rings.
pub type Listing = Result<Vec<u64>, h3o::error::InvalidGeometry>;

/// The request for a cover at `resolution`: every cell that any part of the polygon
/// touches, so that no gap is left at the boundary. Nothing is to be listed at a
/// resolution that the grid does not have.
pub fn cover_request(resolution: u8) -> (r: Result<CoverRequest, Error>)
    ensures
        resolution > 15 ==> r == Err::<CoverRequest, Error>(Error::InvalidResolution),
        resolution <= 15 ==> r is Ok && r->Ok_0.resolution == resolution
            && r->Ok_0.containment == Containment::Covers,
{
    if !resolution_is_valid(resolution) {
        return Err(Error::InvalidResolution);
    }
    Ok(CoverRequest { resolution, containment: Containment::Covers })
}

/// Whether every element of the list is a cell of resolution `res`.
pub open spec fn all_at(cells: Seq<u64>, res: int) -> bool {
    forall|i: int|
        0 <= i < cells.len() ==> is_cell(#[trigger] cells[i]) && resolution_of(cells[i]) == res
}

/// Whether every polygon of the list was accepted.
pub open spec fn all_accepted(listings: Seq<Listing>) -> bool {
    forall|i: int| 0 <= i < listings.len() ==> (#[trigger] listings[i]) is Ok
}

/// What was listed for each polygon; nothing for a polygon that was refused.
pub open spec fn listed(listings: Seq<Listing>) -> Seq<Seq<u64>> {
    Seq::new(
        listings.len(),
        |i: int|
            match listings[i] {
                Ok(cells) => cells@,
                Err(_) => Seq::empty(),
            },
    )
}

/// Whether every listing holds cells of resolution `res` only.
pub open spec fn all_listed_at(listings: Seq<Listing>, res: int) -> bool {
    forall|i: int| 0 <= i < listings.len() ==> all_at(#[trigger] listed(listings)[i], res)
}

/// The lists one after the other.
pub open spec fn joined(lists: Seq<Seq<u64>>) -> Seq<u64>
    decreases lists.len(),
{
    if lists.len() == 0 {
        Seq::empty()
    } else {
        joined(lists.drop_last()) + lists.last()
    }
}

/// The union of several lists: the lists one after the other, each cell kept where it
/// first occurs.
pub open spec fn union_of(lists: Seq<Seq<u64>>) -> Seq<u64> {
    first_occurrences(joined(lists))
}

/// What joined lists hold: what the lists hold.
pub proof fn lemma_joined_contains(lists: Seq<Seq<u64>>)
    ensures
        forall|c: u64| #[trigger]
            joined(lists).contains(c) <==> exists|i: int|
                0 <= i < lists.len() && (#[trigger] lists[i]).contains(c),
    decreases lists.len(),
{
    if lists.len() > 0 {
        let init = lists.drop_last();
        lemma_joined_contains(init);
        lemma_concat_contains(joined(init), lists.last());
        assert forall|c: u64| #[trigger]
            joined(lists).contains(c) <==> exists|i: int|
                0 <= i < lists.len() && (#[trigger] lists[i]).contains(c) by {
            if joined(init).contains(c) {
                let i = choose|i: int| 0 <= i < init.len() && (#[trigger] init[i]).contains(c);
                assert(lists[i].contains(c));
            }
            if lists.last().contains(c) {
                assert(lists[lists.len() - 1].contains(c));
            }
            if exists|i: int| 0 <= i < lists.len() && (#[trigger] lists[i]).contains(c) {
                let i = choose|i: int| 0 <= i < lists.len() && (#[trigger] lists[i]).contains(c);
                if i < init.len() {
                    assert(init[i].contains(c));
                }
            }
        }
    }
}

/// The cover of several polygons is the union of the covers of each: a cell is in the
/// one exactly where it is in the cover of some member, covered alone.
pub proof fn law_cover_is_union(lists: Seq<Seq<u64>>)
    ensures
        forall|c: u64| #[trigger]
            union_of(lists).contains(c) <==> exists|i: int|
                0 <= i < lists.len() && #[trigger] first_occurrences(lists[i]).contains(c),
{
    lemma_first_occurrences(joined(lists));
    lemma_joined_contains(lists);
    assert forall|c: u64| #[trigger]
        union_of(lists).contains(c) <==> exists|i: int|
            0 <= i < lists.len() && #[trigger] first_occurrences(lists[i]).contains(c) by {
        if joined(lists).contains(c) {
            let i = choose|i: int| 0 <= i < lists.len() && (#[trigger] lists[i]).contains(c);
            lemma_first_occurrences(lists[i]);
            assert(first_occurrences(lists[i]).contains(c));
        }
        if exists|i: int|
            0 <= i < lists.len() && #[trigger] first_occurrences(lists[i]).contains(c) {
            let i = choose|i: int|
                0 <= i < lists.len() && #[trigger] first_occurrences(lists[i]).contains(c);
            lemma_first_occurrences(lists[i]);
            assert(lists[i].contains(c));
        }
    }
}

/// Whether every element of the list is a cell of resolution `res`; stops at the first
/// that is not.
fn cells_are_at(cells: &Vec<u64>, res: u8) -> (ok: bool)
    ensures
        ok == all_at(cells@, res as int),
{
    let mut i: usize = 0;
    while i < cells.len()
        invariant
            i <= cells.len(),
            forall|j: int|
                0 <= j < i ==> is_cell(#[trigger] cells[j]) && resolution_of(cells[j]) == res,
        decreases cells.len() - i,
    {
        if !index_is_valid(cells[i]) {
            return false;
        }
        if cell_resolution(cells[i]) != res {
            return false;
        }
        i += 1;
    }
    true
}

/// The cover of a polygon at `resolution`, of what the grid listed for it: each cell
/// once, where it first occurs. The resolution is checked first, then whether the
/// rings were accepted, then the cells that were listed: one that is not a cell of
/// that resolution fails the whole.
pub fn polygon_to_cells(listing: Listing, resolution: u8) -> (r: Result<Vec<u64>, Error>)
    ensures
        resolution > 15 ==> r == Err::<Vec<u64>, Error>(Error::InvalidResolution),
        resolution <= 15 && listing is Err ==> r == Err::<Vec<u64>, Error>(
            Error::InvalidGeometry,
        ),
        resolution <= 15 && listing is Ok && !all_at(listing->Ok_0@, resolution as int) ==> r
            == Err::<Vec<u64>, Error>(Error::InvalidCellIndex),
        resolution <= 15 && listing is Ok && all_at(listing->Ok_0@, resolution as int) ==> r is Ok
            && r->Ok_0@ == first_occurrences(listing->Ok_0@),
        r matches Ok(v) ==> v@.no_duplicates() && all_at(v@, resolution as int),
{
    if !resolution_is_valid(resolution) {
        return Err(Error::InvalidResolution);
    }
    match listing {
        Ok(cells) => {
            if !cells_are_at(&cells, resolution) {
                return Err(Error::InvalidCellIndex);
            }
            let ghost given = cells@;
            let kept = unique(cells);
            proof {
                lemma_first_occurrences(given);
                lemma_kept_are_at(given, kept@, resolution as int);
            }
            Ok(kept)
        },
        Err(_) => Err(Error::InvalidGeometry),
    }
}

/// The cover of several polygons at `resolution`, of what the grid listed for each:
/// the union of the listings, each cell once, where it first occurs. The resolution is
/// checked first, then whether every polygon was accepted, then the cells that were
/// listed; one failure fails the whole.
pub fn multipolygon_to_cells(
    listings: Vec<Listing>,
    resolution: u8,
) -> (r: Result<Vec<u64>, Error>)
    ensures
        resolution > 15 ==> r == Err::<Vec<u64>, Error>(Error::InvalidResolution),
        resolution <= 15 && !all_accepted(listings@) ==> r == Err::<Vec<u64>, Error>(
            Error::InvalidGeometry,
        ),
        resolution <= 15 && all_accepted(listings@) && !all_listed_at(
            listings@,
            resolution as int,
        ) ==> r == Err::<Vec<u64>, Error>(Error::InvalidCellIndex),
        resolution <= 15 && all_accepted(listings@) && all_listed_at(
            listings@,
            resolution as int,
        ) ==> r is Ok && r->Ok_0@ == union_of(listed(listings@)),
        r matches Ok(v) ==> v@.no_duplicates() && all_at(v@, resolution as int),
{
    if !resolution_is_valid(resolution) {
        return Err(Error::InvalidResolution);
    }
    let mut i: usize = 0;
    while i < listings.len()
        invariant
            i <= listings.len(),
            resolution <= 15,
            forall|j: int| 0 <= j < i ==> (#[trigger] listings[j]) is Ok,
        decreases listings.len() - i,
    {
        if listings[i].is_err() {
            return Err(Error::InvalidGeometry);
        }
        i += 1;
    }
    let ghost lists = listed(listings@);
    let mut all: Vec<u64> = Vec::new();
    let mut k: usize = 0;
    while k < listings.len()
        invariant
            k <= listings.len(),
            resolution <= 15,
            all_accepted(listings@),
            lists == listed(listings@),
            all@ == joined(lists.take(k as int)),
            forall|j: int| 0 <= j < k ==> all_at(#[trigger] lists[j], resolution as int),
            all_at(all@, resolution as int),
        decreases listings.len() - k,
    {
        if let Ok(cells) = &listings[k] {
            assert(cells@ == lists[k as int]);
            if !cells_are_at(cells, resolution) {
                return Err(Error::InvalidCellIndex);
            }
            let mut copy = cells.clone();
            proof {
                assert(copy@ == cells@);
                assert(lists.take(k + 1).drop_last() == lists.take(k as int));
            }
            all.append(&mut copy);
        }
        k += 1;
    }
    let ghost given = all@;
    let kept = unique(all);
    proof {
        assert(lists.take(listings.len() as int) == lists);
        lemma_first_occurrences(given);
        lemma_kept_are_at(given, kept@, resolution as int);
    }
    Ok(kept)
}

/// What is kept of a list of cells of one resolution are cells of that resolution.
proof fn lemma_kept_are_at(given: Seq<u64>, kept: Seq<u64>, res: int)
    requires
        all_at(given, res),
        kept.to_set() == given.to_set(),
    ensures
        all_at(kept, res),
{
    assert forall|i: int| 0 <= i < kept.len() implies is_cell(#[trigger] kept[i])
        && resolution_of(kept[i]) == res by {
        assert(kept.contains(kept[i]));
        assert(given.to_set().contains(kept[i]));
        let j = choose|j: int| 0 <= j < given.len() && given[j] == kept[i];
        assert(is_cell(given[j]));
    }
}

} // verus!
