use geodot::double::Double;
use geodot::ids::{join_path, patch_id, place_id, scale_profile, tile_id, variant_id};
use geodot::options::{
    count_tiles_for_options_with_progress, needs_geojson, needs_probes, visit_tile, NumberField,
};
use geodot::polygon::{point_in_polygon, tile_corners, tile_intersects_polygon};
use geodot::tile::{range_tile_count, tiles_in_range};
use geodot::{
    count_tiles_for_options, scan_for_options, selection_for_options, tile_grid,
    tile_grid_between, tile_grid_for_polygon, tile_path, tiles_for_options, validate_options,
    validate_prepare_options, Coordinate, DownloadOptions, ImageRoot, OptionsError,
    PrepareOptions, PrepareOptionsError, Selection, Tile, TileBounds, TileProbe, MAX_ZOOM,
};

fn double(value: f64) -> Double {
    Double { bits: value.to_bits() }
}

fn point(lon: f64, lat: f64) -> Coordinate {
    Coordinate { lon: double(lon), lat: double(lat) }
}

fn latlon_to_tile(lat: f64, lon: f64, z: u32) -> Tile {
    let n = 2u64.pow(z) as f64;
    let x = ((lon + 180.0) / 360.0 * n).floor() as u32;
    let lat_rad = lat.to_radians();
    let y = ((1.0 - (lat_rad.tan() + 1.0 / lat_rad.cos()).ln() / std::f64::consts::PI) / 2.0 * n)
        .floor() as u32;
    Tile { x, y, z }
}

fn bounds(tile: Tile) -> [f64; 4] {
    let n = 2u64.pow(tile.z) as f64;
    let lat = |y: u32| {
        ((std::f64::consts::PI * (1.0 - 2.0 * y as f64 / n)).sinh()).atan().to_degrees()
    };
    [
        tile.x as f64 / n * 360.0 - 180.0,
        lat(tile.y + 1),
        (tile.x + 1) as f64 / n * 360.0 - 180.0,
        lat(tile.y),
    ]
}

fn crossings(polygon: &[(f64, f64)], lat: f64) -> Vec<Double> {
    let mut result = Vec::new();
    let mut previous = polygon[polygon.len() - 1];
    for &current in polygon {
        let lon = (previous.0 - current.0) * (lat - current.1) / (previous.1 - current.1) + current.0;
        result.push(double(lon));
        previous = current;
    }
    result
}

fn probe(tile: Tile, polygon: &[(f64, f64)]) -> TileProbe {
    let [west, south, east, north] = bounds(tile);
    let center = ((west + east) / 2.0, (south + north) / 2.0);
    let bounds = TileBounds {
        lat_min: double(south),
        lon_min: double(west),
        lat_max: double(north),
        lon_max: double(east),
    };
    let corner_crossings = tile_corners(&bounds)
        .iter()
        .map(|corner| crossings(polygon, f64::from_bits(corner.lat.bits)))
        .collect();
    TileProbe {
        bounds,
        center: point(center.0, center.1),
        center_crossings: crossings(polygon, center.1),
        corner_crossings,
    }
}

const SQUARE: [(f64, f64); 4] = [
    (37.6504, 55.7304),
    (37.6520, 55.7304),
    (37.6520, 55.7297),
    (37.6504, 55.7297),
];

#[test]
fn builds_tile_grid_to_right_and_down() {
    let start = latlon_to_tile(55.7303, 37.6504907, 18);
    let tiles = tile_grid(start, 2, 2);
    assert_eq!(tiles.len(), 4);
    assert_eq!(tiles[0], Tile { x: 158488, y: 81979, z: 18 });
    assert_eq!(tiles[3], Tile { x: 158489, y: 81980, z: 18 });
}

#[test]
fn builds_tile_grid_between_corners() {
    let a = latlon_to_tile(55.7303, 37.6504907, 18);
    let b = latlon_to_tile(55.7297, 37.652, 18);
    let tiles = tile_grid_between(a, b, 18);
    assert_eq!(
        tiles,
        vec![
            Tile { x: 158488, y: 81979, z: 18 },
            Tile { x: 158489, y: 81979, z: 18 },
            Tile { x: 158488, y: 81980, z: 18 },
            Tile { x: 158489, y: 81980, z: 18 },
        ]
    );
    assert_eq!(tile_grid_between(b, a, 18), tiles);
}

#[test]
fn builds_tile_grid_for_polygon() {
    let points: Vec<Coordinate> = SQUARE.iter().map(|p| point(p.0, p.1)).collect();
    let a = latlon_to_tile(55.7304, 37.6504, 18);
    let b = latlon_to_tile(55.7297, 37.6520, 18);
    let probes: Vec<TileProbe> =
        tile_grid_between(a, b, 18).iter().map(|tile| probe(*tile, &SQUARE)).collect();
    assert_eq!(tile_grid_for_polygon(&points, a, b, 18, &probes).len(), 4);
}

#[test]
fn builds_nested_tile_path() {
    let path = tile_path("data", Tile { x: 1, y: 2, z: 3 });
    assert_eq!(path, "data/tiles/3/1/2.jpg");
}

#[test]
fn joins_paths_like_the_file_system() {
    let tile = Tile { x: 1, y: 2, z: 3 };
    for out in ["data", "data/", "", "/", "a/b"] {
        let expected = std::path::Path::new(out)
            .join("tiles")
            .join("3")
            .join("1")
            .join("2.jpg");
        assert_eq!(tile_path(out, tile), expected.to_string_lossy());
    }
    assert_eq!(join_path("data", "/etc"), "/etc");
    assert_eq!(join_path("data", "x"), "data/x");
}

#[test]
fn rejects_invalid_numeric_options() {
    let err = validate_options(&DownloadOptions {
        lat: double(f64::NAN),
        ..DownloadOptions::default()
    })
    .unwrap_err();
    assert!(err.message().contains("lat must be a finite number"));

    let err = validate_options(&DownloadOptions { cols: 0, ..DownloadOptions::default() })
        .unwrap_err();
    assert!(err.message().contains("cols must be an integer at least 1"));

    let err = validate_options(&DownloadOptions {
        zoom: MAX_ZOOM + 1,
        ..DownloadOptions::default()
    })
    .unwrap_err();
    assert!(err.message().contains("zoom must be an integer from 0 to 30"));
}

#[test]
fn default_options_are_those_of_the_readme() {
    let options = DownloadOptions::default();
    assert_eq!(f64::from_bits(options.lat.bits), 55.7303);
    assert_eq!(f64::from_bits(options.lon.bits), 37.6504907);
    assert_eq!((options.zoom, options.cols, options.rows, options.jobs), (18, 3, 3, 16));
    assert_eq!(options.out, "data");
    assert!(validate_options(&options).is_ok());
    let prepare = PrepareOptions::default();
    assert_eq!(prepare.patch_sizes, vec![1, 2, 4]);
    assert_eq!(prepare.rotations, vec![0, 45, 90, 135, 180, 225, 270, 315]);
    assert_eq!((prepare.stride, prepare.auto400m), (1, true));
    assert!(validate_prepare_options(&prepare).is_ok());
}

#[test]
fn reports_each_fault_of_download_options() {
    let infinite = double(f64::INFINITY);
    let faults = [
        (
            DownloadOptions { lon: infinite, ..DownloadOptions::default() },
            OptionsError::NotFinite(NumberField::Lon),
            "lon must be a finite number",
        ),
        (
            DownloadOptions { bottom_right_lat: Some(infinite), ..DownloadOptions::default() },
            OptionsError::NotFinite(NumberField::BottomRightLat),
            "bottom_right_lat must be a finite number",
        ),
        (
            DownloadOptions { bottom_right_lon: Some(infinite), ..DownloadOptions::default() },
            OptionsError::NotFinite(NumberField::BottomRightLon),
            "bottom_right_lon must be a finite number",
        ),
        (
            DownloadOptions {
                polygon: vec![
                    point(1.0, 2.0),
                    Coordinate { lon: double(1.0), lat: infinite },
                ],
                ..DownloadOptions::default()
            },
            OptionsError::NotFinite(NumberField::PolygonLat(1)),
            "polygon[1].lat must be a finite number",
        ),
        (
            DownloadOptions {
                polygon: vec![Coordinate { lon: infinite, lat: infinite }],
                ..DownloadOptions::default()
            },
            OptionsError::NotFinite(NumberField::PolygonLon(0)),
            "polygon[0].lon must be a finite number",
        ),
        (
            DownloadOptions { rows: 0, ..DownloadOptions::default() },
            OptionsError::Rows,
            "rows must be an integer at least 1",
        ),
        (
            DownloadOptions { jobs: 0, ..DownloadOptions::default() },
            OptionsError::Jobs,
            "jobs must be an integer at least 1",
        ),
    ];
    for (options, error, message) in faults {
        assert_eq!(validate_options(&options), Err(error));
        assert_eq!(error.message(), message);
    }
}

#[test]
fn reports_each_fault_of_prepare_options() {
    let faults = [
        (
            PrepareOptions { patch_sizes: vec![], ..PrepareOptions::default() },
            PrepareOptionsError::NoPatchSizes,
            "patch_sizes must not be empty",
        ),
        (
            PrepareOptions { rotations: vec![], ..PrepareOptions::default() },
            PrepareOptionsError::NoRotations,
            "rotations must not be empty",
        ),
        (
            PrepareOptions { stride: 0, ..PrepareOptions::default() },
            PrepareOptionsError::Stride,
            "stride must be an integer at least 1",
        ),
        (
            PrepareOptions { patch_sizes: vec![1, 0], ..PrepareOptions::default() },
            PrepareOptionsError::PatchSize,
            "patch_sizes must be an integer at least 1",
        ),
        (
            PrepareOptions { rotations: vec![0, 360], ..PrepareOptions::default() },
            PrepareOptionsError::Rotation,
            "rotations must be an integer from 0 to 359",
        ),
    ];
    for (options, error, message) in faults {
        assert_eq!(validate_prepare_options(&options), Err(error));
        assert_eq!(error.message(), message);
    }
}

#[test]
fn selects_by_polygon_then_rectangle_then_grid() {
    let grid = DownloadOptions::default();
    assert!(matches!(selection_for_options(&grid), Selection::Grid { .. }));
    let rectangle = DownloadOptions {
        bottom_right_lat: Some(double(55.7297)),
        bottom_right_lon: Some(double(37.652)),
        ..DownloadOptions::default()
    };
    assert_eq!(
        selection_for_options(&rectangle),
        Selection::Rectangle {
            first: point(37.6504907, 55.7303),
            second: point(37.652, 55.7297),
        }
    );
    let polygon = DownloadOptions {
        bottom_right_lat: Some(double(0.0)),
        bottom_right_lon: Some(double(0.0)),
        polygon: SQUARE.iter().map(|p| point(p.0, p.1)).collect(),
        ..DownloadOptions::default()
    };
    assert_eq!(
        selection_for_options(&polygon),
        Selection::Polygon {
            north_west: point(37.6504, 55.7304),
            south_east: point(37.6520, 55.7297),
        }
    );
}

#[test]
fn lists_and_counts_the_tiles_of_options() {
    let first = Tile { x: 10, y: 20, z: 5 };
    let second = Tile { x: 12, y: 19, z: 5 };
    let grid = DownloadOptions { zoom: 5, cols: 3, rows: 2, ..DownloadOptions::default() };
    let tiles = tiles_for_options(&grid, first, second, &[]);
    assert_eq!(tiles.len(), 6);
    assert_eq!(tiles[5], Tile { x: 12, y: 21, z: 5 });
    assert_eq!(count_tiles_for_options(&grid, first, second, &[]), 6);

    let rectangle = DownloadOptions {
        bottom_right_lat: Some(double(1.0)),
        bottom_right_lon: Some(double(1.0)),
        zoom: 5,
        ..DownloadOptions::default()
    };
    let tiles = tiles_for_options(&rectangle, first, second, &[]);
    assert_eq!(tiles, tiles_in_range(10, 12, 19, 20, 5));
    assert_eq!(count_tiles_for_options(&rectangle, first, second, &[]), 6);
    assert_eq!(range_tile_count(10, 12, 19, 20), 6);

    let a = latlon_to_tile(55.7304, 37.6504, 18);
    let b = latlon_to_tile(55.7297, 37.6520, 18);
    let polygon = DownloadOptions {
        polygon: SQUARE.iter().map(|p| point(p.0, p.1)).collect(),
        ..DownloadOptions::default()
    };
    let probes: Vec<TileProbe> =
        tile_grid_between(a, b, 18).iter().map(|tile| probe(*tile, &SQUARE)).collect();
    assert_eq!(tiles_for_options(&polygon, a, b, &probes).len(), 4);
    assert_eq!(count_tiles_for_options(&polygon, a, b, &probes), 4);
}

#[test]
fn a_scan_counts_what_matches() {
    let options = DownloadOptions { zoom: 5, cols: 2, rows: 2, ..DownloadOptions::default() };
    let first = Tile { x: 1, y: 1, z: 5 };
    let mut scan = scan_for_options(&options, first, first);
    let mut visited = Vec::new();
    let mut last = None;
    while let Some(tile) = scan.current() {
        visited.push(tile);
        last = Some(scan.record(tile.x == 1));
    }
    assert_eq!(visited, tile_grid(first, 2, 2));
    let progress = last.unwrap();
    assert_eq!((progress.scanned, progress.selected, progress.total), (4, 2, 4));
}

#[test]
fn a_point_is_inside_by_the_edges_to_its_right() {
    let triangle = [(0.0, 0.0), (4.0, 0.0), (0.0, 4.0)];
    let points: Vec<Coordinate> = triangle.iter().map(|p| point(p.0, p.1)).collect();
    for (lon, lat, expected) in [(1.0, 1.0, true), (3.0, 3.0, false), (-1.0, 1.0, false)] {
        let answer = point_in_polygon(point(lon, lat), &points, &crossings(&triangle, lat));
        assert_eq!(answer, expected);
    }
}

#[test]
fn a_tile_with_a_vertex_is_selected() {
    let tile = Tile { x: 0, y: 0, z: 1 };
    let sliver = [(-90.0, 10.0), (-89.9, 10.0), (-89.95, 10.1)];
    let points: Vec<Coordinate> = sliver.iter().map(|p| point(p.0, p.1)).collect();
    assert!(tile_intersects_polygon(&probe(tile, &sliver), &points));
    let away = Tile { x: 1, y: 1, z: 1 };
    assert!(!tile_intersects_polygon(&probe(away, &sliver), &points));
}

#[test]
fn asks_for_geojson_only_without_a_polygon() {
    let geojson = Some("area.geojson".to_string());
    let mut options = DownloadOptions { geojson, ..DownloadOptions::default() };
    assert!(needs_geojson(&options));
    options.polygon = SQUARE.iter().map(|p| point(p.0, p.1)).collect();
    assert!(!needs_geojson(&options));
    assert!(!needs_geojson(&DownloadOptions::default()));
}

#[test]
fn names_tell_what_they_name() {
    let tile = Tile { x: 1, y: 2, z: 3 };
    assert_eq!(tile_id(ImageRoot::Tiles, "default", tile), "tiles_default_z3_x1_y2");
    assert_eq!(tile_id(ImageRoot::DroneView, "flight_z9", tile), "drone-view_flight_z9_z3_x1_y2");
    assert_eq!(place_id(3, 1, 2), "z3_x1_y2");
    assert_eq!(patch_id(ImageRoot::Tiles, "default", tile, 2), "tiles_default_z3_x1-2_y2-3_s2");
    assert_eq!(variant_id("p", 45), "p_r45");
    assert_eq!(scale_profile(18, 4), "z18_4x4");
}

#[test]
fn doubles_are_ordered_like_numbers() {
    let values = [
        f64::NEG_INFINITY,
        -180.5,
        -0.0,
        0.0,
        f64::MIN_POSITIVE,
        55.7303,
        180.0,
        f64::INFINITY,
        f64::NAN,
    ];
    for a in values {
        assert_eq!(double(a).is_finite(), a.is_finite());
        assert_eq!(double(a).is_nan(), a.is_nan());
        for b in values {
            assert_eq!(double(a).is_below(double(b)), a < b);
            assert_eq!(double(a).is_at_most(double(b)), a <= b);
            let min = f64::from_bits(double(a).min_with(double(b)).bits);
            assert!(min == a.min(b) || (min.is_nan() && a.min(b).is_nan()));
            let max = f64::from_bits(double(a).max_with(double(b)).bits);
            assert!(max == a.max(b) || (max.is_nan() && a.max(b).is_nan()));
        }
    }
}

#[test]
fn counting_reports_each_step() {
    let a = latlon_to_tile(55.7304, 37.6504, 18);
    let b = latlon_to_tile(55.7297, 37.6520, 18);
    let polygon = DownloadOptions {
        polygon: SQUARE.iter().map(|p| point(p.0, p.1)).collect(),
        ..DownloadOptions::default()
    };
    let probes: Vec<TileProbe> =
        tile_grid_between(a, b, 18).iter().map(|tile| probe(*tile, &SQUARE)).collect();
    let (count, steps) = count_tiles_for_options_with_progress(&polygon, a, b, &probes);
    assert_eq!(count, 4);
    assert_eq!(steps.len(), probes.len());
    let last = steps[steps.len() - 1];
    assert_eq!((last.scanned, last.selected, last.total), (probes.len(), 4, probes.len()));
    let grid = DownloadOptions { cols: 2, rows: 1, ..DownloadOptions::default() };
    let (count, steps) = count_tiles_for_options_with_progress(&grid, a, a, &[]);
    assert_eq!(count, 2);
    assert_eq!((steps[0].scanned, steps[0].selected, steps[0].total), (1, 1, 2));
    let edge = Tile { x: u32::MAX, y: u32::MAX, z: 18 };
    assert_eq!(count_tiles_for_options_with_progress(&grid, edge, edge, &[]).0, 2);
}

#[test]
fn a_walk_keeps_the_selected_tiles() {
    let a = latlon_to_tile(55.7304, 37.6504, 19);
    let b = latlon_to_tile(55.7297, 37.6520, 19);
    let triangle = [SQUARE[0], SQUARE[1], SQUARE[2]];
    let options = DownloadOptions {
        polygon: triangle.iter().map(|p| point(p.0, p.1)).collect(),
        zoom: 19,
        ..DownloadOptions::default()
    };
    assert!(needs_probes(&options));
    let mut scan = scan_for_options(&options, a, b);
    let mut kept = Vec::new();
    let mut last = None;
    let mut probes = Vec::new();
    while let Some(tile) = scan.current() {
        let measured = probe(tile, &triangle);
        let (selected, progress) = visit_tile(&options, &mut scan, Some(&measured));
        kept.extend(selected);
        last = Some(progress);
        probes.push(measured);
    }
    assert_eq!(kept, tiles_for_options(&options, a, b, &probes));
    assert_eq!(last.unwrap().selected, kept.len());
    assert!(kept.len() < probes.len());
    assert!(kept.windows(2).all(|pair| (pair[0].y, pair[0].x) < (pair[1].y, pair[1].x)));
    let grid = DownloadOptions { cols: 1, rows: 1, ..DownloadOptions::default() };
    assert!(!needs_probes(&grid));
    let mut scan = scan_for_options(&grid, a, a);
    assert_eq!(visit_tile(&grid, &mut scan, None).0, Some(Tile { z: 18, ..a }));
}

#[test]
fn a_polygon_may_start_at_any_vertex() {
    let ring = [(0.0, 0.0), (4.0, 0.0), (3.0, 2.0), (0.0, 4.0)];
    for start in 0..ring.len() {
        let mut moved = ring.to_vec();
        moved.rotate_left(start);
        for (lon, lat) in [(1.0, 1.0), (3.0, 3.0), (-1.0, 1.0), (0.5, 3.0), (3.5, 0.5)] {
            let points = |ring: &[(f64, f64)]| -> Vec<Coordinate> {
                ring.iter().map(|p| point(p.0, p.1)).collect()
            };
            assert_eq!(
                point_in_polygon(point(lon, lat), &points(&ring), &crossings(&ring, lat)),
                point_in_polygon(point(lon, lat), &points(&moved), &crossings(&moved, lat))
            );
        }
    }
}

#[test]
fn a_closed_ring_holds_the_same_points() {
    let open = [(0.0, 0.0), (4.0, 0.0), (0.0, 4.0)];
    let closed = [(0.0, 0.0), (4.0, 0.0), (0.0, 4.0), (0.0, 0.0)];
    let points = |ring: &[(f64, f64)]| -> Vec<Coordinate> {
        ring.iter().map(|p| point(p.0, p.1)).collect()
    };
    for (lon, lat) in [(1.0, 1.0), (3.0, 3.0), (-1.0, 1.0), (0.5, 3.0)] {
        let place = point(lon, lat);
        assert_eq!(
            point_in_polygon(place, &points(&open), &crossings(&open, lat)),
            point_in_polygon(place, &points(&closed), &crossings(&closed, lat))
        );
    }
}
