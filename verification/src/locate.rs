//! Finding the cell that holds a point.
//!
//! A point comes as the grid's own `h3o::LatLng`, or as the error with which its
//! latitude and longitude were refused, and is opaque here.
use crate::error::Error;
use crate::grid::resolution_is_valid;
use crate::index::{is_cell, resolution_of};
use h3o::Resolution;
use vstd::prelude::*;

verus! {

/// `h3o::LatLng`: a latitude and a longitude that the grid accepted. Carried through,
/// never read.
#[verifier::external_type_specification]
#[verifier::external_body]
pub struct ExLatLng(h3o::LatLng);

/// `h3o::error::InvalidLatLng`: why a latitude or a longitude was refused. Carried
/// through, never read.
#[verifier::external_type_specification]
#[verifier::external_body]
pub struct ExInvalidLatLng(h3o::error::InvalidLatLng);

/// `h3o::LatLng::to_cell`: the cell of the resolution that was asked for which holds
/// the location.
#[verifier::external_body]
fn cell_at(location: &h3o::LatLng, res: u8) -> (cell: u64)
    requires
        res <= 15,
    ensures
        is_cell(cell),
        resolution_of(cell) == res,
{
    u64::from(location.to_cell(Resolution::try_from(res).unwrap()))
}

/// The cell of resolution `resolution` that holds a point. `location` is what was made
/// of the point's latitude and longitude, by `h3o::LatLng::new` or by a stricter check
/// before it. The point is checked before the resolution.
pub fn point_to_cell(
    location: Result<h3o::LatLng, h3o::error::InvalidLatLng>,
    resolution: u8,
) -> (r: Result<u64, Error>)
    ensures
        location is Err ==> r == Err::<u64, Error>(Error::InvalidCoordinate),
        location is Ok && resolution > 15 ==> r == Err::<u64, Error>(Error::InvalidResolution),
        location is Ok && resolution <= 15 ==> r is Ok,
        r matches Ok(cell) ==> is_cell(cell) && resolution_of(cell) == resolution,
{
    match location {
        Ok(place) => {
            if !resolution_is_valid(resolution) {
                return Err(Error::InvalidResolution);
            }
            Ok(cell_at(&place, resolution))
        },
        Err(_) => Err(Error::InvalidCoordinate),
    }
}

} // verus!
