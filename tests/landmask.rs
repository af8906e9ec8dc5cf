use roaring_landmask::grid::{modulate_longitude, TURN};
use roaring_landmask::{
    chunk_bounds, GridSpec, LandBitmapIndex, LandmaskError, Polygon, RoaringLandmask, RunSet,
    ShorelineStore,
};

fn deg(d: f64) -> i64 {
    (d * 1e6).round() as i64
}

fn put_u32(b: &mut Vec<u8>, v: u32) {
    b.extend_from_slice(&v.to_le_bytes());
}

fn put_i64(b: &mut Vec<u8>, v: i64) {
    b.extend_from_slice(&v.to_le_bytes());
}

fn put_ring(b: &mut Vec<u8>, hole: bool, pts: &[(f64, f64)]) {
    b.push(if hole { 1 } else { 0 });
    put_u32(b, pts.len() as u32);
    for (x, y) in pts {
        b.extend_from_slice(&(deg(*x) as i32).to_le_bytes());
        b.extend_from_slice(&(deg(*y) as i32).to_le_bytes());
    }
}

fn header(b: &mut Vec<u8>) {
    b.extend_from_slice(b"RLMK");
    put_u32(b, 1);
    put_i64(b, deg(-180.0));
    put_i64(b, deg(-90.0));
    put_i64(b, deg(1.0));
    put_i64(b, deg(1.0));
    put_i64(b, 360);
    put_i64(b, 180);
}

/// A one-degree raster with a southern polar cap, and an island spanning
/// 8..20 E, 58..71 N with a lake at 17..19 E, 60..62 N.
fn dataset() -> Vec<u8> {
    let mut b = Vec::new();
    header(&mut b);
    for row in 0..180u32 {
        if row <= 10 {
            put_u32(&mut b, 1);
            put_u32(&mut b, 0);
            put_u32(&mut b, 360);
        } else if (148..=161).contains(&row) {
            put_u32(&mut b, 1);
            put_u32(&mut b, 188);
            put_u32(&mut b, 201);
        } else {
            put_u32(&mut b, 0);
        }
    }
    put_u32(&mut b, 3);
    put_ring(
        &mut b,
        false,
        &[(-180.0, -90.0), (180.0, -90.0), (180.0, -80.0), (-180.0, -80.0)],
    );
    put_ring(&mut b, false, &[(8.0, 58.0), (20.0, 58.0), (20.0, 71.0), (8.0, 71.0)]);
    put_ring(&mut b, true, &[(17.0, 60.0), (19.0, 60.0), (19.0, 62.0), (17.0, 62.0)]);
    b
}

fn mask() -> RoaringLandmask {
    RoaringLandmask::new(&dataset()).unwrap()
}

fn on(m: &RoaringLandmask, x: f64, y: f64) -> bool {
    m.contains(deg(x), deg(y)).unwrap()
}

#[test]
fn load_ms() {
    let _ms = RoaringLandmask::new(&dataset()).unwrap();
}

#[test]
fn test_contains_on_land() {
    let mask = mask();
    assert!(on(&mask, 15., 65.6));
    assert!(on(&mask, 10., 60.0));
}

#[test]
fn test_contains_in_ocean() {
    let mask = mask();
    assert!(!on(&mask, 5., 65.6));
}

#[test]
fn test_dateline_wrap() {
    let mask = mask();

    // Close to NP
    assert!(!on(&mask, 5., 89.));

    // Close to SP
    assert!(on(&mask, 5., -89.));

    // Within bounds
    let x = (-180..180).map(f64::from).collect::<Vec<_>>();
    let m = x.iter().map(|x| on(&mask, *x, 65.)).collect::<Vec<_>>();

    // Wrapped bounds
    let x = (180..540).map(f64::from).collect::<Vec<_>>();
    let mm = x.iter().map(|x| on(&mask, *x, 65.)).collect::<Vec<_>>();

    assert_eq!(m, mm);
    assert!(m.iter().any(|v| *v));
    assert!(m.iter().any(|v| !*v));
}

#[test]
fn test_not_on_earth_north() {
    let mask = mask();
    assert_eq!(mask.contains(deg(5.), deg(95.)), Err(LandmaskError::RangeError));
}

#[test]
fn test_not_on_earth_south() {
    let mask = mask();
    assert_eq!(mask.contains(deg(5.), deg(-95.)), Err(LandmaskError::RangeError));
}

#[test]
fn out_of_range_latitude_for_any_longitude() {
    let mask = mask();
    for x in [-720.0, -180.0, 0.0, 15.0, 179.9, 900.0] {
        assert_eq!(mask.contains(deg(x), deg(95.)), Err(LandmaskError::RangeError));
        assert_eq!(mask.contains(deg(x), deg(-95.)), Err(LandmaskError::RangeError));
    }
    assert_eq!(mask.contains(0, deg(90.0) + 1), Err(LandmaskError::RangeError));
    assert!(mask.contains(0, deg(90.0)).is_ok());
    assert!(mask.contains(0, deg(-90.0)).is_ok());
}

#[test]
fn longitude_periodicity() {
    let mask = mask();
    for (x, y) in [(15.0, 65.6), (5.0, 65.6), (18.0, 61.0), (-170.0, -85.0), (8.5, 70.5)] {
        let base = mask.contains(deg(x), deg(y));
        for k in [-3i64, -1, 1, 2, 5] {
            assert_eq!(mask.contains(deg(x) + TURN * k, deg(y)), base);
        }
    }
}

#[test]
fn lake_on_island_is_water() {
    let mask = mask();
    assert!(!on(&mask, 18.0, 61.0));
    assert!(on(&mask, 16.0, 61.0));
}

#[test]
fn unmarked_cell_is_water() {
    // A ring where the raster has no candidate cell: the raster decides.
    let grid = GridSpec::new(deg(-180.0), deg(-90.0), deg(1.0), deg(1.0), 360, 180).unwrap();
    let rows = (0..180).map(|_| RunSet::empty()).collect::<Vec<_>>();
    let index = LandBitmapIndex::new(grid, rows).unwrap();
    let ring = Polygon::new(
        vec![(deg(0.0), deg(0.0)), (deg(10.0), deg(0.0)), (deg(10.0), deg(10.0)), (deg(0.0), deg(10.0))],
        false,
    )
    .unwrap();
    let store = ShorelineStore::new(vec![ring]);
    assert_eq!(store.contains(deg(5.0), deg(5.0)), Ok(true));
    assert_eq!(index.contains(deg(5.0), deg(5.0)), Ok(false));
    let mask = RoaringLandmask::from_parts(index, store);
    assert_eq!(mask.contains(deg(5.0), deg(5.0)), Ok(false));
}

#[test]
fn batch_matches_single() {
    let mask = mask();
    let xs: Vec<i64> = [15.0, 5.0, 18.0, 375.0, 5.0, -345.0, 10.0].iter().map(|v| deg(*v)).collect();
    let ys: Vec<i64> = [65.6, 65.6, 61.0, 65.6, -89.0, 65.0, 95.0].iter().map(|v| deg(*v)).collect();
    let many = mask.contains_many(&xs, &ys).unwrap();
    assert_eq!(many.len(), xs.len());
    for i in 0..xs.len() {
        assert_eq!(many[i], mask.contains(xs[i], ys[i]));
    }
    assert_eq!(
        many,
        vec![Ok(true), Ok(false), Ok(false), Ok(true), Ok(true), Ok(true), Err(LandmaskError::RangeError)]
    );
}

#[test]
fn parallel_matches_serial() {
    let mask = mask();
    let mut xs = Vec::new();
    let mut ys = Vec::new();
    for i in 0..720 {
        for j in 0..37 {
            xs.push(deg(i as f64 * 0.5 - 180.0));
            ys.push(deg(j as f64 * 5.0 - 92.5));
        }
    }
    let serial = mask.contains_many(&xs, &ys).unwrap();
    for workers in [0usize, 1, 2, 3, 7, 64, 100_000] {
        assert_eq!(mask.contains_many_par(&xs, &ys, workers).unwrap(), serial);
    }
}

#[test]
fn shape_mismatch() {
    let mask = mask();
    let xs = vec![0, 1, 2];
    let ys = vec![0, 1];
    assert_eq!(mask.contains_many(&xs, &ys), Err(LandmaskError::ShapeMismatch));
    assert_eq!(mask.contains_many_par(&xs, &ys, 4), Err(LandmaskError::ShapeMismatch));
    assert_eq!(mask.contains_many(&vec![], &vec![]), Ok(vec![]));
}

#[test]
fn chunks_cover_in_order() {
    assert_eq!(chunk_bounds(0, 4), vec![]);
    assert_eq!(chunk_bounds(10, 3), vec![(0, 4), (4, 8), (8, 10)]);
    assert_eq!(chunk_bounds(10, 0), vec![(0, 10)]);
    assert_eq!(chunk_bounds(2, 5), vec![(0, 1), (1, 2)]);
}

#[test]
fn longitude_wraps_at_boundaries() {
    assert_eq!(modulate_longitude(deg(-180.0)), deg(-180.0));
    assert_eq!(modulate_longitude(deg(180.0)), deg(-180.0));
    assert_eq!(modulate_longitude(deg(360.0)), 0);
    assert_eq!(modulate_longitude(deg(-360.0)), 0);
    assert_eq!(modulate_longitude(deg(540.0)), deg(-180.0));
    assert_eq!(modulate_longitude(deg(-540.0)), deg(-180.0));
    assert_eq!(modulate_longitude(deg(190.5)), deg(-169.5));
    assert_eq!(modulate_longitude(deg(-190.5)), deg(169.5));
    assert_eq!(modulate_longitude(deg(179.999999)), deg(179.999999));
    assert_eq!(modulate_longitude(i64::MIN), -54_775_808);
    assert_eq!(modulate_longitude(i64::MAX), 54_775_807);
}

#[test]
fn grid_cells() {
    let g = GridSpec::new(deg(-180.0), deg(-90.0), deg(1.0), deg(1.0), 360, 180).unwrap();
    assert_eq!(g.to_cell(deg(15.0), deg(65.6)), Ok((155, 195)));
    assert_eq!(g.to_cell(deg(-180.0), deg(-90.0)), Ok((0, 0)));
    assert_eq!(g.to_cell(deg(180.0), deg(90.0)), Ok((179, 0)));
    assert_eq!(g.to_cell(deg(-0.5), deg(-0.5)), Ok((89, 179)));
    assert_eq!(g.to_cell(0, deg(91.0)), Err(LandmaskError::RangeError));
}

#[test]
fn grid_rejects_bad_spec() {
    assert_eq!(GridSpec::new(deg(-180.0), deg(-90.0), 0, deg(1.0), 360, 180).unwrap_err(), LandmaskError::DataError);
    assert_eq!(GridSpec::new(deg(-180.0), deg(-90.0), deg(1.0), deg(1.0), 359, 180).unwrap_err(), LandmaskError::DataError);
    assert_eq!(GridSpec::new(deg(-181.0), deg(-90.0), deg(1.0), deg(1.0), 360, 180).unwrap_err(), LandmaskError::DataError);
    assert_eq!(GridSpec::new(deg(-180.0), deg(-90.0), deg(1.0), deg(2.0), 360, 90).map(|g| g.nrows), Ok(90));
}

#[test]
fn run_set_membership() {
    let s = RunSet::from_runs(vec![(2, 5), (5, 6), (10, 11), (20, 40)]).unwrap();
    let members: Vec<u64> = (0..45).filter(|v| s.contains(*v)).collect();
    let expected: Vec<u64> = (2..6).chain(10..11).chain(20..40).collect();
    assert_eq!(members, expected);
    assert!(!RunSet::empty().contains(0));
    assert_eq!(RunSet::from_runs(vec![(3, 3)]).unwrap_err(), LandmaskError::DataError);
    assert_eq!(RunSet::from_runs(vec![(0, 5), (4, 8)]).unwrap_err(), LandmaskError::DataError);
}

#[test]
fn bitmap_needs_one_row_per_band() {
    let grid = GridSpec::new(deg(-180.0), deg(-90.0), deg(1.0), deg(1.0), 360, 180).unwrap();
    let rows = (0..179).map(|_| RunSet::empty()).collect::<Vec<_>>();
    assert_eq!(LandBitmapIndex::new(grid, rows).unwrap_err(), LandmaskError::DataError);
}

#[test]
fn polygon_rejects_bad_rings() {
    assert_eq!(Polygon::new(vec![(0, 0), (1, 1)], false).unwrap_err(), LandmaskError::DataError);
    assert_eq!(
        Polygon::new(vec![(0, 0), (deg(181.0), 0), (0, 1)], false).unwrap_err(),
        LandmaskError::DataError
    );
    assert_eq!(
        Polygon::new(vec![(0, 0), (1, 0), (0, deg(-91.0))], true).unwrap_err(),
        LandmaskError::DataError
    );
}

#[test]
fn triangle_containment() {
    let tri = Polygon::new(vec![(0, 0), (deg(10.0), 0), (0, deg(10.0))], false).unwrap();
    assert!(tri.covers_point(deg(2.0), deg(2.0)));
    assert!(!tri.covers_point(deg(6.0), deg(6.0)));
    assert!(!tri.covers_point(deg(-1.0), deg(2.0)));
    assert!(!tri.covers_point(deg(2.0), deg(11.0)));
}

#[test]
fn decode_rejects_malformed_data() {
    let good = dataset();
    assert!(RoaringLandmask::new(&good).is_ok());
    assert_eq!(RoaringLandmask::new(&[]).unwrap_err(), LandmaskError::DataError);
    assert_eq!(RoaringLandmask::new(&good[..good.len() - 1]).unwrap_err(), LandmaskError::DataError);
    let mut trailing = good.clone();
    trailing.push(0);
    assert_eq!(RoaringLandmask::new(&trailing).unwrap_err(), LandmaskError::DataError);
    let mut magic = good.clone();
    magic[0] = b'X';
    assert_eq!(RoaringLandmask::new(&magic).unwrap_err(), LandmaskError::DataError);
    let mut version = good.clone();
    version[4] = 2;
    assert_eq!(RoaringLandmask::new(&version).unwrap_err(), LandmaskError::DataError);
}

#[test]
fn resolution_getters() {
    let mask = mask();
    assert_eq!(mask.dx(), 1_000_000);
    assert_eq!(mask.dy(), 1_000_000);
}
