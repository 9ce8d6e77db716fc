use h3geo::compaction::{compact, uncompact};
use h3geo::cover::{
    cover_request, multipolygon_to_cells, polygon_to_cells, Containment, CoverRequest, Listing,
};
use h3geo::error::Error;
use h3o::geom::{ContainmentMode, PolyfillConfig, ToCells};
use h3o::{CellIndex, Resolution};
use std::collections::BTreeSet;

const HEXAGON: u64 = 0x851fb467fffffff;

fn ring(corners: &[(f64, f64)]) -> geo::LineString {
    geo::LineString::from(corners.to_vec())
}

fn square(west: f64, south: f64, side: f64) -> geo::LineString {
    ring(&[
        (west, south),
        (west + side, south),
        (west + side, south + side),
        (west, south + side),
        (west, south),
    ])
}

/// What the grid lists for the rings, as the library asks at that resolution; nothing
/// where the library asks for no listing.
fn listing(rings: Vec<geo::LineString>, resolution: u8) -> Listing {
    let mut rings = rings.into_iter();
    let outer = rings.next().unwrap_or(geo::LineString::new(vec![]));
    let polygon = h3o::geom::Polygon::from_degrees(geo::Polygon::new(outer, rings.collect()))?;
    let Ok(request) = cover_request(resolution) else {
        return Ok(Vec::new());
    };
    let mode = match request.containment {
        Containment::Centroid => ContainmentMode::ContainsCentroid,
        Containment::Within => ContainmentMode::ContainsBoundary,
        Containment::Covers => ContainmentMode::Covers,
    };
    let resolution = Resolution::try_from(request.resolution).unwrap();
    let config = PolyfillConfig::new(resolution).containment_mode(mode);
    Ok(polygon.to_cells(config).map(u64::from).collect())
}

fn cover(rings: Vec<geo::LineString>, resolution: u8) -> Result<Vec<u64>, Error> {
    polygon_to_cells(listing(rings, resolution), resolution)
}

fn children(cell: u64, res: u8) -> Vec<u64> {
    let res = Resolution::try_from(res).unwrap();
    CellIndex::try_from(cell).unwrap().children(res).map(u64::from).collect()
}

fn as_set(cells: &[u64]) -> BTreeSet<u64> {
    cells.iter().copied().collect()
}

#[test]
fn a_cover_is_asked_of_the_grid_in_the_covering_mode() {
    for resolution in 0..=15u8 {
        assert_eq!(
            cover_request(resolution),
            Ok(CoverRequest { resolution, containment: Containment::Covers })
        );
    }
    assert_eq!(cover_request(16), Err(Error::InvalidResolution));
    assert_eq!(cover_request(255), Err(Error::InvalidResolution));
}

#[test]
fn a_square_degree_at_the_coarsest_and_at_resolution_nine() {
    let coarse = cover(vec![square(10.0, 45.0, 1.0)], 0).unwrap();
    assert_eq!(coarse, vec![0x801ffffffffffff]);
    let fine = cover(vec![square(10.0, 45.0, 1.0)], 9).unwrap();
    assert_eq!(fine.len(), 82807);
    assert_eq!(as_set(&fine).len(), fine.len());
    for cell in fine {
        let index = CellIndex::try_from(cell).unwrap();
        assert_eq!(index.resolution(), Resolution::Nine);
        let base = u64::from(index.parent(Resolution::Zero).unwrap());
        assert!(coarse.contains(&base));
    }
}

#[test]
fn a_cover_holds_no_cell_twice_and_only_cells_of_the_resolution() {
    for res in 0..=7u8 {
        let cells = cover(vec![square(-71.5, 42.0, 0.5)], res).unwrap();
        assert!(!cells.is_empty());
        assert_eq!(as_set(&cells).len(), cells.len());
        for cell in cells {
            assert_eq!((cell >> 52) & 0xf, u64::from(res));
            assert!(CellIndex::try_from(cell).is_ok());
        }
    }
}

#[test]
fn a_cover_is_the_listing_with_each_cell_where_it_first_occurs() {
    let kids = children(HEXAGON, 6);
    let listed = vec![kids[3], kids[0], kids[3], kids[5], kids[0], kids[3]];
    assert_eq!(polygon_to_cells(Ok(listed), 6), Ok(vec![kids[3], kids[0], kids[5]]));
    assert_eq!(polygon_to_cells(Ok(kids.clone()), 6), Ok(kids));
    assert_eq!(polygon_to_cells(Ok(vec![]), 6), Ok(vec![]));
}

#[test]
fn a_cover_is_what_the_grid_listed_without_repetitions() {
    let listed = listing(vec![square(10.0, 45.0, 1.0)], 6).unwrap();
    let cells = polygon_to_cells(Ok(listed.clone()), 6).unwrap();
    assert_eq!(as_set(&cells), as_set(&listed));
    assert!(cells.len() <= listed.len());
    assert_eq!(cells[0], listed[0]);
}

#[test]
fn a_finer_cover_has_more_cells() {
    let at = |res: u8| cover(vec![square(10.0, 45.0, 1.0)], res).unwrap().len();
    assert_eq!(at(5), 50);
    assert!(at(0) < 10);
    assert!(at(3) < at(5));
    assert!(at(5) < at(6));
}

#[test]
fn a_polygon_within_one_cell_is_covered_by_that_cell() {
    let cell = u64::from(
        h3o::LatLng::new(48.86475, 2.34905).unwrap().to_cell(Resolution::Five),
    );
    assert_eq!(cover(vec![square(2.349, 48.8647, 0.0001)], 5), Ok(vec![cell]));
}

#[test]
fn a_hole_takes_cells_out_of_the_cover() {
    let whole = cover(vec![square(10.0, 45.0, 1.0)], 6).unwrap();
    let holed = cover(vec![square(10.0, 45.0, 1.0), square(10.25, 45.25, 0.5)], 6).unwrap();
    assert!(holed.len() < whole.len());
    assert!(as_set(&holed).is_subset(&as_set(&whole)));
}

#[test]
fn the_cover_of_several_polygons_is_the_union_of_their_covers() {
    let first = || listing(vec![square(10.0, 45.0, 0.5)], 6);
    let second = || listing(vec![square(10.3, 45.2, 0.5)], 6);
    let third = || listing(vec![square(-3.0, 12.0, 0.2)], 6);
    let one = polygon_to_cells(first(), 6).unwrap();
    let two = polygon_to_cells(second(), 6).unwrap();
    let three = polygon_to_cells(third(), 6).unwrap();
    let all = multipolygon_to_cells(vec![first(), second(), third()], 6).unwrap();
    let mut union = as_set(&one);
    union.extend(two.iter());
    union.extend(three.iter());
    assert!(union.len() < one.len() + two.len() + three.len());
    assert_eq!(all.len(), union.len());
    assert_eq!(as_set(&all), union);
    assert_eq!(all[..one.len()], one[..]);
}

#[test]
fn a_union_keeps_each_cell_where_it_first_occurs() {
    let k = children(HEXAGON, 6);
    let listings =
        vec![Ok(vec![k[1], k[2], k[3]]), Ok(vec![k[3], k[4], k[1]]), Ok(vec![]), Ok(vec![
            k[5], k[5], k[2],
        ])];
    assert_eq!(multipolygon_to_cells(listings, 6), Ok(vec![k[1], k[2], k[3], k[4], k[5]]));
    assert_eq!(multipolygon_to_cells(vec![Ok(vec![k[6], k[6], k[6]])], 6), Ok(vec![k[6]]));
    assert_eq!(
        multipolygon_to_cells(vec![Ok(vec![k[0], k[6]]), Ok(vec![k[6], k[0]])], 6),
        Ok(vec![k[0], k[6]])
    );
}

#[test]
fn one_polygon_alone_is_covered_as_a_polygon_is() {
    let alone = multipolygon_to_cells(vec![listing(vec![square(10.0, 45.0, 0.5)], 7)], 7);
    assert_eq!(alone, cover(vec![square(10.0, 45.0, 0.5)], 7));
}

#[test]
fn no_polygons_have_an_empty_cover() {
    assert_eq!(multipolygon_to_cells(vec![], 4), Ok(vec![]));
}

#[test]
fn a_resolution_beyond_fifteen_is_refused_by_the_cover() {
    let good = |res: u8| listing(vec![square(10.0, 45.0, 1.0)], res);
    assert_eq!(polygon_to_cells(good(16), 16), Err(Error::InvalidResolution));
    assert_eq!(polygon_to_cells(good(200), 200), Err(Error::InvalidResolution));
    assert_eq!(polygon_to_cells(good(5), 16), Err(Error::InvalidResolution));
    assert_eq!(multipolygon_to_cells(vec![good(16), good(16)], 16), Err(Error::InvalidResolution));
    assert_eq!(multipolygon_to_cells(vec![], 16), Err(Error::InvalidResolution));
}

#[test]
fn rings_that_form_no_polygon_are_refused() {
    let two_points = listing(vec![ring(&[(10.0, 45.0), (11.0, 45.0)])], 5);
    assert!(two_points.is_err());
    assert_eq!(polygon_to_cells(two_points, 5), Err(Error::InvalidGeometry));
    assert_eq!(cover(vec![], 5), Err(Error::InvalidGeometry));
    let not_finite =
        ring(&[(10.0, 45.0), (f64::NAN, 45.0), (11.0, 46.0), (10.0, 46.0), (10.0, 45.0)]);
    assert_eq!(cover(vec![not_finite], 5), Err(Error::InvalidGeometry));
    let bad_hole = vec![square(10.0, 45.0, 1.0), ring(&[(10.5, 45.5)])];
    assert_eq!(cover(bad_hole, 5), Err(Error::InvalidGeometry));
}

#[test]
fn the_resolution_is_checked_before_the_polygon() {
    let two_points = || listing(vec![ring(&[(10.0, 45.0), (11.0, 45.0)])], 16);
    assert_eq!(polygon_to_cells(two_points(), 16), Err(Error::InvalidResolution));
    assert_eq!(multipolygon_to_cells(vec![two_points()], 16), Err(Error::InvalidResolution));
}

#[test]
fn one_refused_polygon_fails_the_whole_multipolygon() {
    let good = || listing(vec![square(10.0, 45.0, 0.5)], 5);
    let bad = || listing(vec![ring(&[(10.0, 45.0), (11.0, 45.0)])], 5);
    assert_eq!(multipolygon_to_cells(vec![good(), bad()], 5), Err(Error::InvalidGeometry));
    assert_eq!(multipolygon_to_cells(vec![bad(), good()], 5), Err(Error::InvalidGeometry));
    assert_eq!(multipolygon_to_cells(vec![good(), good(), bad()], 5), Err(Error::InvalidGeometry));
}

#[test]
fn a_listing_with_a_stranger_is_refused() {
    let kids = children(HEXAGON, 6);
    assert_eq!(polygon_to_cells(Ok(vec![kids[0], 0]), 6), Err(Error::InvalidCellIndex));
    assert_eq!(polygon_to_cells(Ok(vec![kids[0], HEXAGON]), 6), Err(Error::InvalidCellIndex));
    assert_eq!(polygon_to_cells(Ok(kids.clone()), 7), Err(Error::InvalidCellIndex));
    assert_eq!(
        multipolygon_to_cells(vec![Ok(kids.clone()), Ok(vec![u64::MAX])], 6),
        Err(Error::InvalidCellIndex)
    );
    assert_eq!(
        multipolygon_to_cells(vec![Ok(kids.clone()), Ok(vec![HEXAGON])], 6),
        Err(Error::InvalidCellIndex)
    );
}

#[test]
fn a_refused_polygon_comes_before_a_stranger_in_a_listing() {
    let bad = listing(vec![ring(&[(10.0, 45.0), (11.0, 45.0)])], 6);
    assert_eq!(multipolygon_to_cells(vec![Ok(vec![0]), bad], 6), Err(Error::InvalidGeometry));
}

#[test]
fn a_cover_survives_compaction_and_expansion() {
    let cells = cover(vec![square(10.0, 45.0, 1.0)], 7).unwrap();
    let compacted = compact(cells.clone()).unwrap();
    assert!(compacted.len() < cells.len());
    let restored = uncompact(compacted, 7).unwrap();
    assert_eq!(as_set(&restored), as_set(&cells));
    assert_eq!(restored.len(), cells.len());
}
