use h3geo::error::Error;
use h3geo::locate::point_to_cell;
use h3o::{CellIndex, LatLng, Resolution};

#[test]
fn a_point_in_san_francisco_at_resolution_nine() {
    let cell = point_to_cell(LatLng::new(37.77, -122.42), 9);
    assert_eq!(cell, Ok(0x89283082813ffff));
    assert_eq!(point_to_cell(LatLng::new(37.77, -122.42), 9), cell);
}

#[test]
fn the_cell_is_of_the_resolution_asked_for() {
    for res in 0..=15u8 {
        let cell = point_to_cell(LatLng::new(48.864716, 2.349014), res).unwrap();
        assert_eq!((cell >> 52) & 0xf, u64::from(res));
        let index = CellIndex::try_from(cell).unwrap();
        assert_eq!(u8::from(index.resolution()), res);
    }
}

#[test]
fn the_cell_is_the_one_the_grid_gives() {
    let place = LatLng::new(-33.8688, 151.2093).unwrap();
    for res in [0u8, 4, 11, 15] {
        let expected = u64::from(place.to_cell(Resolution::try_from(res).unwrap()));
        assert_eq!(point_to_cell(Ok(place), res), Ok(expected));
    }
    assert_ne!(point_to_cell(Ok(place), 3), point_to_cell(Ok(place), 4));
}

#[test]
fn the_centre_of_a_cell_stays_in_it_at_the_finer_resolution() {
    let mut cell = 0x8029fffffffffff;
    for res in 1..=15u8 {
        let centre = LatLng::from(CellIndex::try_from(cell).unwrap());
        let finer = point_to_cell(Ok(centre), res).unwrap();
        let coarser = point_to_cell(Ok(centre), res - 1).unwrap();
        assert_eq!(coarser, cell);
        let index = CellIndex::try_from(finer).unwrap();
        let above = index.parent(Resolution::try_from(res - 1).unwrap()).unwrap();
        assert_eq!(u64::from(above), coarser);
        cell = finer;
    }
}

#[test]
fn a_point_that_is_not_finite_is_refused() {
    assert_eq!(point_to_cell(LatLng::new(f64::NAN, 10.0), 9), Err(Error::InvalidCoordinate));
    assert_eq!(point_to_cell(LatLng::new(10.0, f64::INFINITY), 9), Err(Error::InvalidCoordinate));
    assert_eq!(
        point_to_cell(LatLng::new(f64::NEG_INFINITY, f64::NAN), 0),
        Err(Error::InvalidCoordinate)
    );
}

#[test]
fn the_point_is_checked_before_the_resolution() {
    assert_eq!(point_to_cell(LatLng::new(f64::NAN, 10.0), 16), Err(Error::InvalidCoordinate));
}

#[test]
fn a_resolution_beyond_fifteen_is_refused() {
    assert_eq!(point_to_cell(LatLng::new(37.77, -122.42), 16), Err(Error::InvalidResolution));
    assert_eq!(point_to_cell(LatLng::new(37.77, -122.42), 255), Err(Error::InvalidResolution));
    assert!(point_to_cell(LatLng::new(37.77, -122.42), 15).is_ok());
}

#[test]
fn a_cell_need_not_lie_under_the_coarser_cell_of_its_point() {
    let place = LatLng::new(74.2989, 29.957400000000007);
    let fine = point_to_cell(place, 6).unwrap();
    let coarse = point_to_cell(place, 5).unwrap();
    assert_eq!(fine, 0x86011d8f7ffffff);
    assert_eq!(coarse, 0x85011d8bfffffff);
    let above = CellIndex::try_from(fine).unwrap().parent(Resolution::Five).unwrap();
    assert_eq!(u64::from(above), 0x85011d8ffffffff);
}
