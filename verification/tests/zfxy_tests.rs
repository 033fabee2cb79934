use spatial_id::zfxy::MAX_ALT;
use spatial_id::zfxy::ZFXY;

/// Projects a voxel tile's tile-space centroid to geographic degrees and
/// meters with the Web Mercator inverse map.
fn centroid_latlonalt(cell: &ZFXY) -> (f64, f64, f64) {
    let (num_x, num_y, num_f) = cell.centroid_tile_frac();
    let n = 2.0f64.powi(cell.zoom as i32);
    let lon_deg = ((num_x as f64 * 0.5) / n) * 360.0 - 180.0;
    let lat_rad = (std::f64::consts::PI * (1.0 - 2.0 * (num_y as f64 * 0.5) / n)).sinh().atan();
    let vz = MAX_ALT as f64 / n;
    let alt = (num_f as f64 * 0.5) * vz;
    (lat_rad.to_degrees(), lon_deg, alt)
}

/// Re-derives a voxel tile by walking a digit string against
/// `get_children` from the root tile.
fn walk_hash(hash: &str) -> ZFXY {
    let mut cur = ZFXY { zoom: 0, floor: 0, x: 0, y: 0 };
    for c in hash.chars() {
        let idx = (c as usize) - ('1' as usize);
        let children = cur.get_children();
        cur = children[idx];
    }
    cur
}

#[test]
fn zfxy_test_centroid() {
    let cell = ZFXY { zoom: 1, floor: 0, x: 0, y: 0 };
    let (lat, lon, alt) = centroid_latlonalt(&cell);
    assert_eq!(lat, 66.51326044311186);
    assert_eq!(lon, -90.0);
    assert_eq!(alt, 8388608.0);
}

#[test]
fn test_to_tile_hash() {
    // from_lat_lon_alt(0.0, 0.0, 10.0, 25) yields this tile.
    let cell = ZFXY { zoom: 25, floor: 10, x: 16777216, y: 16777216 };
    let expected_hash = "4111111111111111111115151";
    let actual_hash = cell.to_tile_hash();
    assert_eq!(actual_hash, expected_hash);

    let cell = ZFXY { zoom: 18, floor: 0, x: 232851, y: 103211 };
    let expected_hash = "244113223421323144";
    let actual_hash = cell.to_tile_hash();
    assert_eq!(actual_hash, expected_hash);
}

#[test]
fn test_to_spatial_id_str() {
    // from_lat_lon_alt(0.0, 0.0, 10.0, 25) yields this tile.
    let cell = ZFXY { zoom: 25, floor: 10, x: 16777216, y: 16777216 };
    let expected_id = "/25/10/16777216/16777216";
    let actual_id = cell.to_spatial_id_str();
    assert_eq!(actual_id, expected_id);
}

#[test]
fn spatial_id_str_edges() {
    let root = ZFXY { zoom: 0, floor: 0, x: 0, y: 0 };
    assert_eq!(root.to_spatial_id_str(), "/0/0/0/0");

    let below = ZFXY { zoom: 3, floor: -5, x: 2, y: 6 };
    assert_eq!(below.to_spatial_id_str(), "/3/-5/2/6");

    let lowest = ZFXY { zoom: 0, floor: -2147483648, x: 0, y: 0 };
    assert_eq!(lowest.to_spatial_id_str(), "/0/-2147483648/0/0");
}

#[test]
fn tile_hash_negative_floor() {
    let below = ZFXY { zoom: 3, floor: -5, x: 2, y: 6 };
    let hash = below.to_tile_hash();
    assert_eq!(hash, "-745");
    assert_eq!(hash.len(), 4);
}

#[test]
fn tile_hash_root_is_empty() {
    let root = ZFXY { zoom: 0, floor: 0, x: 0, y: 0 };
    assert_eq!(root.to_tile_hash(), "");
    let below_root = ZFXY { zoom: 0, floor: -3, x: 0, y: 0 };
    assert_eq!(below_root.to_tile_hash(), "");
}

#[test]
fn tile_hash_length_equals_zoom() {
    let cell = ZFXY { zoom: 5, floor: 7, x: 11, y: 19 };
    assert_eq!(cell.to_tile_hash().len(), 5);
}

#[test]
fn tile_hash_walk_reconstructs() {
    let cell = ZFXY { zoom: 18, floor: 0, x: 232851, y: 103211 };
    let rebuilt = walk_hash(&cell.to_tile_hash());
    assert_eq!(rebuilt, cell);

    let deep = ZFXY { zoom: 7, floor: 93, x: 87, y: 120 };
    let rebuilt = walk_hash(&deep.to_tile_hash());
    assert_eq!(rebuilt, deep);
}

#[test]
fn get_parent_cases() {
    let cell = ZFXY { zoom: 2, floor: 3, x: 1, y: 2 };
    assert_eq!(cell.get_parent(), Some(ZFXY { zoom: 1, floor: 1, x: 0, y: 1 }));

    let root = ZFXY { zoom: 0, floor: 0, x: 0, y: 0 };
    assert_eq!(root.get_parent(), None);

    // The hierarchy carries magnitudes: a negative layer's parent is
    // non-negative.
    let below = ZFXY { zoom: 3, floor: -5, x: 2, y: 6 };
    assert_eq!(below.get_parent(), Some(ZFXY { zoom: 2, floor: 2, x: 1, y: 3 }));
}

#[test]
fn get_children_order() {
    let root = ZFXY { zoom: 0, floor: 0, x: 0, y: 0 };
    let children = root.get_children();
    let expected = [
        ZFXY { zoom: 1, floor: 0, x: 0, y: 0 },
        ZFXY { zoom: 1, floor: 0, x: 1, y: 0 },
        ZFXY { zoom: 1, floor: 0, x: 0, y: 1 },
        ZFXY { zoom: 1, floor: 0, x: 1, y: 1 },
        ZFXY { zoom: 1, floor: 1, x: 0, y: 0 },
        ZFXY { zoom: 1, floor: 1, x: 1, y: 0 },
        ZFXY { zoom: 1, floor: 1, x: 0, y: 1 },
        ZFXY { zoom: 1, floor: 1, x: 1, y: 1 },
    ];
    assert_eq!(children, expected);
}

#[test]
fn parent_children_round_trip_unique() {
    let cell = ZFXY { zoom: 4, floor: 6, x: 9, y: 13 };
    let parent = cell.get_parent().unwrap();
    let children = parent.get_children();
    let mut hits: usize = 0;
    for child in children.iter() {
        if *child == cell {
            hits += 1;
        }
    }
    assert_eq!(hits, 1);
}

#[test]
fn bvol_cover_range_enumeration() {
    let cover = ZFXY::bvol_cover_range(2, 1, 2, 1, 1, -1, 0);
    let expected = vec![
        ZFXY { zoom: 2, floor: -1, x: 1, y: 1 },
        ZFXY { zoom: 2, floor: 0, x: 1, y: 1 },
        ZFXY { zoom: 2, floor: -1, x: 2, y: 1 },
        ZFXY { zoom: 2, floor: 0, x: 2, y: 1 },
    ];
    assert_eq!(cover, expected);
}

#[test]
fn bvol_cover_range_empty_axes() {
    assert_eq!(ZFXY::bvol_cover_range(2, 3, 1, 0, 3, 0, 5).len(), 0);
    assert_eq!(ZFXY::bvol_cover_range(2, 0, 3, 0, 3, 5, 0).len(), 0);
}

#[test]
fn spatial_id_str_parse_round_trip() {
    let cell = ZFXY { zoom: 25, floor: -10, x: 16777216, y: 7 };
    let id = cell.to_spatial_id_str();
    let parts: Vec<&str> = id.split('/').collect();
    assert_eq!(parts.len(), 5);
    assert_eq!(parts[0], "");
    let parsed = ZFXY {
        zoom: parts[1].parse::<u8>().unwrap(),
        floor: parts[2].parse::<i32>().unwrap(),
        x: parts[3].parse::<u32>().unwrap(),
        y: parts[4].parse::<u32>().unwrap(),
    };
    assert_eq!(parsed, cell);
}

#[test]
fn bvol_cover_range_no_repeats() {
    let cover = ZFXY::bvol_cover_range(3, 0, 2, 1, 3, -2, 1);
    assert_eq!(cover.len(), 3 * 3 * 4);
    for i in 0..cover.len() {
        for j in 0..i {
            assert_ne!(cover[i], cover[j]);
        }
    }
}

#[test]
fn zfxy_centroid_tile_frac_values() {
    let cell = ZFXY { zoom: 4, floor: -3, x: 5, y: 9 };
    let (num_x, num_y, num_f) = cell.centroid_tile_frac();
    assert_eq!(num_x, 11);
    assert_eq!(num_y, 19);
    assert_eq!(num_f, -5);
}
