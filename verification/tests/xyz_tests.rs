use spatial_id::xyz::clamp_tile_index;
use spatial_id::xyz::grid_width_u32;
use spatial_id::xyz::XYZTile;

const EPSILON: f64 = 1e-6;

/// Projects a tile-space centroid to geographic degrees with the Web
/// Mercator inverse map.
fn centroid_latlon(tile: &XYZTile) -> (f64, f64) {
    let (num_x, num_y) = tile.centroid_tile_frac();
    let n = 2.0f64.powi(tile.zoom as i32);
    let xc = num_x as f64 * 0.5;
    let yc = num_y as f64 * 0.5;
    let lon_deg = (xc / n) * 360.0 - 180.0;
    let lat_rad = (std::f64::consts::PI * (1.0 - 2.0 * yc / n)).sinh().atan();
    (lat_rad.to_degrees(), lon_deg)
}

#[test]
fn xyz_test_centroid() {
    let tile = XYZTile { zoom: 0, x: 0, y: 0 };
    let (lat, lon) = centroid_latlon(&tile);
    assert!((lat - 0.0).abs() < EPSILON);
    assert!((lon - 0.0).abs() < EPSILON);

    let tile = XYZTile { zoom: 1, x: 0, y: 0 };
    let (lat, lon) = centroid_latlon(&tile);
    assert!(lat > 0.0);
    assert!(lon < 0.0);

    let tile = XYZTile { zoom: 1, x: 1, y: 1 };
    let (lat, lon) = centroid_latlon(&tile);
    assert!(lat < 0.0);
    assert!(lon > 0.0);
}

#[test]
fn grid_width_values() {
    assert_eq!(grid_width_u32(0), 1);
    assert_eq!(grid_width_u32(1), 2);
    assert_eq!(grid_width_u32(25), 33554432);
    assert_eq!(grid_width_u32(31), 2147483648);
}

#[test]
fn clamp_tile_index_snaps_into_grid() {
    assert_eq!(clamp_tile_index(0, 0), 0);
    assert_eq!(clamp_tile_index(5, 0), 0);
    assert_eq!(clamp_tile_index(1, 1), 1);
    assert_eq!(clamp_tile_index(2, 1), 1);
    assert_eq!(clamp_tile_index(7, 3), 7);
    assert_eq!(clamp_tile_index(8, 3), 7);
}

#[test]
fn xyz_centroid_tile_frac_values() {
    let tile = XYZTile { zoom: 5, x: 10, y: 20 };
    let (num_x, num_y) = tile.centroid_tile_frac();
    assert_eq!(num_x, 21);
    assert_eq!(num_y, 41);
}
