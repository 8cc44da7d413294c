use geodot::discover::{
    extension_of, is_supported_extension, parse_image_path, read_source_image, sort_files, split_file_name,
};
use geodot::image_header::{
    read_image_header, read_jpeg_header, read_webp_header, ImageFormat, ImageHeader,
};
use geodot::patches::{build_patches, groups_of_tiles, resolve_patch_sizes};
use geodot::places::build_places;
use geodot::order::is_path_before;
use geodot::text::split_path;
use geodot::validate::{document_files, tile_paths};
use geodot::{
    discover_tiles, load_dataset, patch_bounds, patch_last_tile, plan_dataset, prepare_dataset,
    render_dataset, render_report, render_request, tile_path, validate_dataset, Coordinate, DatasetPlan, DatasetStamp, DiscoverError, Double,
    ImageRoot, Json, JsonNumber, LoadError, PatchGeometry, PrepareOptions, PreparedDataset,
    RenderError, SourceFile, Tile, TileBounds, TileGeometry, TileRecord,
};

const TILE_BYTES: &[u8] = &[b'x'; 128];
const TINY_PNG: &[u8] = &[
    0x89, 0x50, 0x4E, 0x47, 0x0D, 0x0A, 0x1A, 0x0A, 0x00, 0x00, 0x00, 0x0D, 0x49, 0x48, 0x44, 0x52,
    0x00, 0x00, 0x00, 0x01, 0x00, 0x00, 0x00, 0x01, 0x08, 0x06, 0x00, 0x00, 0x00, 0x1F, 0x15, 0xC4,
    0x89, 0x00, 0x00, 0x00, 0x0D, 0x49, 0x44, 0x41, 0x54, 0x78, 0xDA, 0x63, 0x64, 0xF8, 0xCF, 0x50,
    0x0F, 0x00, 0x03, 0x86, 0x01, 0x80, 0x5A, 0x34, 0x7D, 0x6B, 0x00, 0x00, 0x00, 0x00, 0x49, 0x45,
    0x4E, 0x44, 0xAE, 0x42, 0x60, 0x82,
];

fn double(value: f64) -> Double {
    Double { bits: value.to_bits() }
}

fn file(relative: &str, data: &[u8]) -> SourceFile {
    SourceFile::new(relative.to_string(), data.len() as u64, Some(data))
}

fn bounds(tile: Tile) -> TileBounds {
    let n = 2u64.pow(tile.z) as f64;
    let lat = |y: u32| {
        ((std::f64::consts::PI * (1.0 - 2.0 * y as f64 / n)).sinh()).atan().to_degrees()
    };
    TileBounds {
        lat_min: double(lat(tile.y + 1)),
        lon_min: double(tile.x as f64 / n * 360.0 - 180.0),
        lat_max: double(lat(tile.y)),
        lon_max: double((tile.x + 1) as f64 / n * 360.0 - 180.0),
    }
}

fn middle(bounds: &TileBounds) -> Coordinate {
    let half = |a: Double, b: Double| double((f64::from_bits(a.bits) + f64::from_bits(b.bits)) / 2.0);
    Coordinate {
        lon: half(bounds.lon_min, bounds.lon_max),
        lat: half(bounds.lat_min, bounds.lat_max),
    }
}

fn prepare(plan: &DatasetPlan) -> PreparedDataset {
    let tile_geometry: Vec<TileGeometry> = plan
        .tiles()
        .iter()
        .map(|tile| {
            let bounds = bounds(tile.tile);
            TileGeometry { bounds, center: middle(&bounds) }
        })
        .collect();
    let patch_geometry: Vec<PatchGeometry> = plan
        .patches()
        .iter()
        .map(|patch| {
            let first = bounds(patch.tile);
            let last = bounds(patch_last_tile(patch));
            let center = middle(&patch_bounds(first, last));
            PatchGeometry { first, last, center, ground_width_m: double(100.0) }
        })
        .collect();
    let stamp = DatasetStamp {
        version: "1.2.3".to_string(),
        created_at: 1700000000,
        command: "geodot --prepare".to_string(),
    };
    prepare_dataset(plan, &tile_geometry, &patch_geometry, &stamp)
}

fn to_value(json: &Json) -> serde_json::Value {
    match json {
        Json::Null => serde_json::Value::Null,
        Json::Bool(b) => serde_json::Value::Bool(*b),
        Json::Number(JsonNumber::Unsigned(n)) => serde_json::Value::from(*n),
        Json::Number(JsonNumber::Negative(n)) => serde_json::Value::from(*n),
        Json::Number(JsonNumber::Real(d)) => serde_json::Value::from(f64::from_bits(d.bits)),
        Json::Text(text) => serde_json::Value::String(text.clone()),
        Json::List(items) => serde_json::Value::Array(items.iter().map(to_value).collect()),
        Json::Record(fields) => serde_json::Value::Object(
            fields.iter().map(|(name, value)| (name.clone(), to_value(value))).collect(),
        ),
    }
}

fn bytes(value: &serde_json::Value) -> Option<Vec<u8>> {
    Some(serde_json::to_vec_pretty(value).unwrap())
}

fn files(prepared: &PreparedDataset) -> Vec<Option<Vec<u8>>> {
    vec![
        bytes(&to_value(&prepared.tiles)),
        bytes(&to_value(&prepared.patches)),
        bytes(&to_value(&prepared.variants)),
        bytes(&to_value(&prepared.places)),
        bytes(&to_value(&prepared.quality)),
        bytes(&to_value(&prepared.dataset)),
    ]
}

fn four_tiles() -> Vec<TileRecord> {
    let mut found = Vec::new();
    for x in [1, 2] {
        for y in [3, 4] {
            found.push(file(&format!("3/{x}/{y}.jpg"), TILE_BYTES));
        }
    }
    discover_tiles(Some(found), None).unwrap()
}

fn options(sizes: Vec<u32>, rotations: Vec<u32>) -> PrepareOptions {
    PrepareOptions {
        out: "data".to_string(),
        patch_sizes: sizes,
        stride: 1,
        rotations,
        auto400m: false,
    }
}

#[test]
fn prepares_existing_tiles() {
    let plan = plan_dataset(options(vec![1, 2], vec![0, 90]), four_tiles(), &[]).unwrap();
    let prepared = prepare(&plan);
    assert_eq!(prepared.report.tiles, 4);
    assert_eq!(prepared.report.patches, 5);
    assert_eq!(prepared.report.variants, 10);
    assert_eq!(prepared.report.path, "data/vpr");
    let patches = to_value(&prepared.patches);
    let variants = to_value(&prepared.variants);
    let dataset = to_value(&prepared.dataset);
    assert_eq!(patches.as_array().unwrap().len(), 5);
    assert_eq!(variants.as_array().unwrap().len(), 10);
    assert_eq!(dataset["mode"], "virtual");
    assert_eq!(dataset["counts"]["places"], 4);
    assert_eq!(dataset["zoom_levels_detected"][0], 3);
    assert_eq!(dataset["tile_roots"][0], "tiles/{z}/{x}/{y}.{jpg,jpeg,png,webp}");
    assert_eq!(dataset["supported_image_extensions"][3], ".webp");
    let mosaic = patches
        .as_array()
        .unwrap()
        .iter()
        .find(|patch| patch["mosaic_size_tiles"] == 2)
        .unwrap();
    assert_eq!(mosaic["source_x_min"], 1);
    assert_eq!(mosaic["source_x_max"], 2);
    assert_eq!(mosaic["source_y_min"], 3);
    assert_eq!(mosaic["source_y_max"], 4);
    assert_eq!(mosaic["pixel_width"], 512);
    assert_eq!(mosaic["scale_profile"], "z3_2x2");
    assert_eq!(mosaic["patch_id"], "tiles_default_z3_x1-2_y3-4_s2");
    assert_eq!(mosaic["source_tile_ids"][1], "tiles_default_z3_x2_y3");
    assert_eq!(mosaic["image_path_or_virtual_spec"]["type"], "virtual_mosaic");
    assert_eq!(variants[1]["variant_id"], "tiles_default_z3_x1-1_y3-3_s1_r90");
    let tiles = to_value(&prepared.tiles);
    assert_eq!(tiles[0]["path"], "tiles/3/1/3.jpg");
    assert_eq!(tiles[0]["valid"], false);
    assert_eq!(tiles[0]["image_width"], 256);
    let quality = to_value(&prepared.quality);
    assert_eq!(quality["tiles"][0]["recommendation"], "keep");
    assert_eq!(quality["patches"].as_array().unwrap().len(), 5);
}

#[test]
fn small_files_are_rejected() {
    let tiles = discover_tiles(Some(vec![file("3/1/3.jpg", &[0; 127])]), None).unwrap();
    let plan = plan_dataset(options(vec![1], vec![0]), tiles, &[]).unwrap();
    let quality = to_value(&prepare(&plan).quality);
    assert_eq!(quality["tiles"][0]["recommendation"], "reject");
    assert_eq!(quality["tiles"][0]["reject_reasons"][0], "very_small_file");
    assert_eq!(quality["tiles"][0]["blank_near_blank_score"], 1.0);
}

#[test]
fn validates_prepared_manifests() {
    let found = vec![file("18/140140/97408.png", TINY_PNG)];
    let tiles = discover_tiles(None, Some(found)).unwrap();
    let plan = plan_dataset(options(vec![1], vec![0]), tiles, &[]).unwrap();
    let prepared = prepare(&plan);
    let mut contents = files(&prepared);
    let dataset = load_dataset(&contents).unwrap();
    assert_eq!(tile_paths(&dataset), vec!["drone-view/18/140140/97408.png"]);
    let report = validate_dataset(&dataset, &[true], &[], false);
    assert!(report.valid, "{:?}", report.errors);
    assert_eq!(report.exit_code(), 0);
    assert_eq!(report.counts.get("tiles"), Some(1));
    assert_eq!(report.counts.get("query_tiles"), Some(1));
    assert_eq!(report.counts.get("reference_tiles"), Some(0));
    assert_eq!(report.counts.get("unknown"), None);

    let mut patches = to_value(&prepared.patches);
    patches[0]["source_tile_ids"] = serde_json::Value::from(vec!["missing_tile"]);
    contents[1] = bytes(&patches);
    let dataset = load_dataset(&contents).unwrap();
    let invalid = validate_dataset(&dataset, &[true], &[], false);
    assert!(!invalid.valid);
    assert!(invalid.errors[0].contains("missing tile"));
    assert_eq!(invalid.exit_code(), 1);
}

#[test]
fn validation_reports_every_fault() {
    let json = |text: &str| geodot::parse_json(text).unwrap();
    let dataset = geodot::Dataset {
        tiles: json(
            r#"[{"tile_id":"a","path":"p","bbox":[0,0,1,1],"image_width":1,"image_height":1,"role":"query"},
                {"tile_id":"a","path":"","bbox":[1,0,1,1],"image_width":0,"image_height":1},
                {"bbox":[0,0,1]}]"#,
        ),
        patches: json(r#"[{"patch_id":"q","bbox":[0,0,1,91],"source_tiles":["a","b"]}]"#),
        variants: json(r#"[{"variant_id":"v","patch_id":"w"}]"#),
        places: json(
            r#"[{"place_id":"s","tile_ids":["c"],"reference_tile_ids":["d"],"query_tile_ids":["a"],"patch_ids":["e"]}]"#,
        ),
        quality: json("{}"),
        dataset: json(
            r#"{"images_modified":false,"descriptors_computed":true,"indexes_built":false}"#,
        ),
    };
    let generated = vec!["manifest/tiles.json".to_string(), "preview.JPG".to_string()];
    let report = validate_dataset(&dataset, &[false, true, true], &generated, false);
    assert_eq!(
        report.errors,
        vec![
            "duplicate tile id: a",
            "tile missing tile_id",
            "missing source image for tile a: p",
            "missing source image for tile a: ",
            "invalid bbox for tile a",
            "invalid image dimensions for tile a",
            "missing source image for tile : ",
            "invalid bbox for tile ",
            "invalid image dimensions for tile ",
            "invalid bbox for patch q",
            "patch q references missing tile b",
            "variant v references missing patch w",
            "place s tile_ids references missing tile c",
            "place s reference_tile_ids references missing tile d",
            "place s references missing patch e",
            "dataset config descriptors_computed must be false",
            "dataset config generated_images_default must be false",
        ]
    );
    assert_eq!(report.warnings, vec!["found generated image(s) under vpr: 1"]);
    assert_eq!(report.counts.get("errors"), Some(17));
    assert_eq!(report.counts.get("warnings"), Some(1));
    let strict = validate_dataset(&dataset, &[false, true, true], &generated, true);
    assert_eq!(strict.errors.len(), 18);
    assert!(strict.warnings.is_empty());
}

#[test]
fn strict_validation_takes_warnings_for_errors() {
    let plan = plan_dataset(options(vec![1], vec![0]), four_tiles(), &[]).unwrap();
    let dataset = load_dataset(&files(&prepare(&plan))).unwrap();
    let generated = vec!["crops/1.png".to_string()];
    assert!(validate_dataset(&dataset, &[true; 4], &generated, false).valid);
    assert!(!validate_dataset(&dataset, &[true; 4], &generated, true).valid);
    assert!(validate_dataset(&dataset, &[true; 4], &[], true).valid);
}

#[test]
fn loading_tells_which_document_is_at_fault() {
    let plan = plan_dataset(options(vec![1], vec![0]), four_tiles(), &[]).unwrap();
    let mut contents = files(&prepare(&plan));
    contents[5] = None;
    let error = load_dataset(&contents).unwrap_err();
    assert!(matches!(error, LoadError::Missing(5)));
    assert_eq!(error.exit_code(), 2);
    contents[2] = Some(b"[".to_vec());
    assert_eq!(
        error.message("data"),
        "missing dataset manifest: data/vpr/config/dataset.json"
    );
    let error = load_dataset(&contents).unwrap_err();
    assert!(matches!(error, LoadError::Malformed(2, _)));
    assert_eq!(error.message("data"), "EOF while parsing a list at line 1 column 1");
    assert_eq!(error.exit_code(), 2);
    assert_eq!(document_files("data")[0], "data/vpr/manifest/tiles.json");
}

#[test]
fn the_default_dataset_of_a_square_is_valid() {
    let mut found = Vec::new();
    for x in 0..5 {
        for y in 0..5 {
            found.push(file(&format!("{}/{}/{}.png", 10, 600 + x, 300 + y), TINY_PNG));
        }
    }
    let tiles = discover_tiles(Some(found), None).unwrap();
    let plan = plan_dataset(PrepareOptions::default(), tiles, &[5, 0, 900]).unwrap();
    // Sizes 1, 2, 4, 5 and 8: 25 + 16 + 4 + 1 squares.
    assert_eq!(plan.patches().len(), 46);
    let prepared = prepare(&plan);
    assert_eq!(prepared.report.variants, 46 * 8);
    let dataset = load_dataset(&files(&prepared)).unwrap();
    let report = validate_dataset(&dataset, &[true; 25], &[], true);
    assert!(report.valid, "{:?}", report.errors);
}

#[test]
fn a_second_file_of_a_tile_is_reported() {
    let found = vec![file("3/1/3.jpg", TINY_PNG), file("3/1/3.png", TINY_PNG)];
    let tiles = discover_tiles(Some(found), None).unwrap();
    let plan = plan_dataset(options(vec![1], vec![0]), tiles, &[]).unwrap();
    let dataset = load_dataset(&files(&prepare(&plan))).unwrap();
    let report = validate_dataset(&dataset, &[true, true], &[], false);
    assert_eq!(report.errors, vec!["duplicate tile id: tiles_default_z3_x1_y3"]);
}

#[test]
fn renders_the_image_of_a_single_tile() {
    let plan = plan_dataset(options(vec![1, 2], vec![0, 90]), four_tiles(), &[]).unwrap();
    let contents: Vec<Vec<u8>> = files(&prepare(&plan)).into_iter().flatten().collect();
    let render = |patch: Option<&str>, variant: Option<&str>| {
        let request = render_request(patch, variant)?;
        let variants = variant.map(|_| contents[2].as_slice());
        render_dataset("data", &contents[1], &contents[0], variants, &request)
    };
    let path = render(Some("tiles_default_z3_x2-2_y4-4_s1"), None).unwrap();
    assert_eq!(path, "data/tiles/3/2/4.jpg");
    let path = render(None, Some("tiles_default_z3_x2-2_y4-4_s1_r90")).unwrap();
    assert_eq!(path, "data/tiles/3/2/4.jpg");
    let error = render(Some("tiles_default_z3_x1-2_y3-4_s2"), None).unwrap_err();
    assert!(matches!(error, RenderError::NotSingle));
    assert_eq!(
        error.message(),
        "render currently supports one-source-tile virtual patches only"
    );
    assert_eq!(render(Some("p"), None).unwrap_err().message(), "patch not found: p");
    assert_eq!(render(None, Some("v")).unwrap_err().message(), "variant not found: v");
    assert_eq!(
        render(None, None).unwrap_err().message(),
        "provide exactly one of patch_id or variant_id"
    );
    assert!(matches!(render(Some("p"), Some("v")), Err(RenderError::NotOne)));
}

#[test]
fn rendering_reports_what_is_missing() {
    let request = render_request(Some("p"), None).unwrap();
    let render = |patches: &str, tiles: &str| {
        render_dataset("data", patches.as_bytes(), tiles.as_bytes(), None, &request)
            .unwrap_err()
            .message()
    };
    assert_eq!(render(r#"[{"patch_id":"p"}]"#, "[]"), "patch has no source tiles");
    assert_eq!(
        render(r#"[{"patch_id":"p","source_tiles":[1]}]"#, "[]"),
        "source tile id is not a string"
    );
    assert_eq!(
        render(r#"[{"patch_id":"p","source_tiles":["t"]}]"#, "[]"),
        "source tile not found: t"
    );
    assert_eq!(
        render(r#"[{"patch_id":"p","source_tiles":["t"]}]"#, r#"[{"tile_id":"t"}]"#),
        "source tile has no path"
    );
    let malformed = "EOF while parsing a list at line 1 column 1";
    assert_eq!(render("[", "{"), malformed);
    assert_eq!(render("[]", "["), malformed);
    let request = render_request(None, Some("v")).unwrap();
    let error = render_dataset("data", b"[]", b"[]", Some(b"["), &request).unwrap_err();
    assert_eq!(error.message(), malformed);
    let request = render_request(Some("p"), None).unwrap();
    let error = render_dataset("data", b"[]", b"[]", Some(b"["), &request).unwrap_err();
    assert_eq!(error.message(), "patch not found: p");
}

#[test]
fn a_mosaic_spans_its_corner_tiles() {
    let plan = plan_dataset(options(vec![2], vec![0]), four_tiles(), &[]).unwrap();
    let patch = &plan.patches()[0];
    assert_eq!(patch_last_tile(patch), Tile { x: 2, y: 4, z: 3 });
    let first = bounds(patch.tile);
    let last = bounds(patch_last_tile(patch));
    let whole = patch_bounds(first, last);
    assert_eq!((whole.lon_min, whole.lat_max), (first.lon_min, first.lat_max));
    assert_eq!((whole.lon_max, whole.lat_min), (last.lon_max, last.lat_min));
    let prepared = prepare(&plan);
    let list = to_value(&prepared.patches);
    let number = |value: Double| serde_json::Value::from(f64::from_bits(value.bits));
    let expected = vec![
        number(first.lon_min),
        number(last.lat_min),
        number(last.lon_max),
        number(first.lat_max),
    ];
    assert_eq!(list[0]["bbox"], serde_json::Value::from(expected));
    assert_eq!(list[0]["lat_min"], number(last.lat_min));
    assert_eq!(list[0]["lon_max"], number(last.lon_max));
}

#[test]
fn mosaics_keep_to_the_stride() {
    let mut tiles = Vec::new();
    for x in 1..5 {
        tiles.push(file(&format!("3/{x}/3.jpg"), TILE_BYTES));
    }
    let mut settings = options(vec![1], vec![0]);
    settings.stride = 2;
    let tiles = discover_tiles(Some(tiles), None).unwrap();
    let plan = plan_dataset(settings, tiles, &[]).unwrap();
    let starts: Vec<u32> = plan.patches().iter().map(|patch| patch.tile.x).collect();
    assert_eq!(starts, vec![1, 3]);
}

#[test]
fn a_rendered_image_is_reported_with_its_length() {
    let report = render_report("a.jpg".to_string(), "b.jpg".to_string(), &[1, 2, 3]);
    assert_eq!((report.source_path.as_str(), report.output_path.as_str()), ("a.jpg", "b.jpg"));
    assert_eq!(report.bytes, 3);
}

#[test]
fn the_path_of_a_tile_reads_back_even_off_the_map() {
    let tile = Tile { x: 9, y: 4294967295, z: 3 };
    let path = tile_path("data", tile);
    let place = parse_image_path(path.strip_prefix("data/tiles/").unwrap()).unwrap();
    assert_eq!(place.capture_id, "default");
    assert_eq!(Tile { x: place.x, y: place.y, z: place.z }, tile);
    let files = vec![file("3/9/4294967295.jpg", TILE_BYTES)];
    assert!(matches!(discover_tiles(Some(files), None), Err(DiscoverError::NoTiles)));
}

#[test]
fn paths_are_read_by_their_parts() {
    let place = parse_image_path("./3//1/./2.jpg/").unwrap();
    assert_eq!((place.capture_id.as_str(), place.z, place.x, place.y), ("default", 3, 1, 2));
    assert_eq!(parse_image_path("../3/1/2.jpg").unwrap().capture_id, "..");
    assert!(parse_image_path("3/1/2.jpg/..").is_none());
    assert_eq!(extension_of("a.html/").as_deref(), Some("html"));
    assert_eq!(extension_of("b/a.html/.").as_deref(), Some("html"));
    assert_eq!(extension_of("a.html/.."), None);
    assert_eq!(extension_of(".html"), None);
    assert_eq!(extension_of(""), None);
    assert_eq!(split_path("./a//b/./c/"), vec!["a", "b", "c"]);
}

#[test]
fn paths_are_ordered_like_those_of_the_file_system() {
    let paths = ["a", "a/b", "a.b", "a.b/c", "a//c", "../z", "!", "b/./a", "a/c/d"];
    for a in paths {
        for b in paths {
            let expected = std::path::Path::new(a) < std::path::Path::new(b);
            assert_eq!(is_path_before(a, b), expected, "{a} {b}");
        }
    }
}

#[test]
fn finds_images_in_both_layouts() {
    let tiles = vec![
        file("3/1/4.JPG", TILE_BYTES),
        file("3/1/3.jpg", TILE_BYTES),
        file("night/3/1/3.webp", TILE_BYTES),
        file("readme.txt", TILE_BYTES),
        file("3/1/8.jpg", TILE_BYTES),
        file("31/1/1.jpg", TILE_BYTES),
        file("a/b/3/1/3.jpg", TILE_BYTES),
    ];
    let drone = vec![SourceFile::new("3/0/0.png".to_string(), 9, None)];
    let found = discover_tiles(Some(tiles), Some(drone)).unwrap();
    let paths: Vec<&str> = found.iter().map(|tile| tile.path.as_str()).collect();
    assert_eq!(
        paths,
        vec!["tiles/3/1/3.jpg", "tiles/3/1/4.JPG", "tiles/night/3/1/3.webp", "drone-view/3/0/0.png"]
    );
    assert_eq!(found[1].extension, "jpg");
    assert_eq!(found[2].capture_id, "night");
    assert_eq!(found[3].root, ImageRoot::DroneView);
    assert_eq!(found[3].header.format, None);
}

#[test]
fn finding_nothing_is_an_error() {
    let error = discover_tiles(None, None).unwrap_err();
    assert_eq!(error, DiscoverError::NoDirectory);
    assert_eq!(error.message("data"), "tile directory not found: data/tiles");
    let error = discover_tiles(Some(vec![]), None).unwrap_err();
    assert_eq!(error, DiscoverError::NoTiles);
    assert_eq!(error.message("data"), "no valid tiles found under data/tiles");
}

#[test]
fn a_downloaded_tile_is_found_again() {
    let tile = Tile { x: 158488, y: 81979, z: 18 };
    let path = tile_path("data", tile);
    let relative = path.strip_prefix("data/tiles/").unwrap();
    let found = read_source_image(ImageRoot::Tiles, &file(relative, TILE_BYTES)).unwrap();
    assert_eq!(found.tile, tile);
    assert_eq!(found.capture_id, "default");
}

#[test]
fn paths_tell_where_images_lie() {
    let place = parse_image_path("18/2/3.jpg").unwrap();
    assert_eq!((place.capture_id.as_str(), place.z, place.x, place.y), ("default", 18, 2, 3));
    let place = parse_image_path("c/+18/02/3.tar.jpg");
    assert!(place.is_none());
    let place = parse_image_path("c/+18/02/3.jpg").unwrap();
    assert_eq!((place.capture_id.as_str(), place.z, place.x, place.y), ("c", 18, 2, 3));
    assert!(parse_image_path("2/3.jpg").is_none());
    assert!(parse_image_path("31/2/3.jpg").is_none());
    assert!(parse_image_path("x/2/3.jpg").is_none());
}

#[test]
fn file_names_are_split_like_paths() {
    for name in ["a.jpg", "a", ".jpg", "a.b.c", "a.", "..a", ""] {
        let path = std::path::Path::new(name);
        let (stem, extension) = split_file_name(name);
        assert_eq!(Some(stem.as_str()), path.file_stem().and_then(|s| s.to_str()).or(Some("")));
        assert_eq!(extension.as_deref(), path.extension().and_then(|s| s.to_str()));
    }
    assert!(is_supported_extension("webp"));
    assert!(!is_supported_extension("gif"));
}

#[test]
fn files_are_sorted_like_paths() {
    let names = ["a/b", "a.b", "a", "b/a/c", "b/a", "a/é", "a/z", "A", "10/1", "9/1"];
    let sorted = sort_files(names.iter().map(|name| file(name, b"")).collect());
    let mut expected: Vec<std::path::PathBuf> = names.iter().map(|n| n.into()).collect();
    expected.sort();
    let expected: Vec<String> =
        expected.iter().map(|p| p.to_string_lossy().into_owned()).collect();
    let sorted: Vec<String> = sorted.into_iter().map(|f| f.relative).collect();
    assert_eq!(sorted, expected);
}

#[test]
fn headers_tell_size_and_encoding() {
    let known = |width, height, format| ImageHeader {
        width: Some(width),
        height: Some(height),
        format: Some(format),
    };
    assert_eq!(read_image_header(TINY_PNG), known(1, 1, ImageFormat::Png));
    assert_eq!(
        read_image_header(&TINY_PNG[..20]),
        ImageHeader { width: None, height: None, format: None }
    );

    let mut jpeg = vec![0xff, 0xd8, 0xff, 0xe0, 0x00, 0x04, 1, 2];
    jpeg.extend([0xff, 0xc0, 0x00, 0x11, 0x08, 0x01, 0x02, 0x03, 0x04, 0, 0]);
    assert_eq!(read_image_header(&jpeg), known(0x0304, 0x0102, ImageFormat::Jpeg));
    assert_eq!(read_jpeg_header(&jpeg), known(0x0304, 0x0102, ImageFormat::Jpeg));
    let unknown = ImageHeader { width: None, height: None, format: Some(ImageFormat::Jpeg) };
    assert_eq!(read_jpeg_header(&jpeg[..jpeg.len() - 2]), unknown);
    assert_eq!(read_image_header(&[0xff, 0xd8]), unknown);

    let mut webp = b"RIFF....WEBPVP8X".to_vec();
    webp.extend([0; 8]);
    webp.extend([0xff, 0x01, 0x00, 0x02, 0x00, 0x01]);
    assert_eq!(read_image_header(&webp), known(512, 0x10003, ImageFormat::Webp));
    let mut webp = b"RIFF....WEBPVP8L".to_vec();
    webp.extend([0; 5]);
    webp.extend((9u32 | (19 << 14) | (1 << 28)).to_le_bytes());
    assert_eq!(read_webp_header(&webp), known(10, 20, ImageFormat::Webp));
    webp.pop();
    assert_eq!(
        read_webp_header(&webp),
        ImageHeader { width: None, height: None, format: Some(ImageFormat::Webp) }
    );
    assert_eq!(ImageFormat::Webp.name(), "webp");
}

#[test]
fn patches_need_complete_squares() {
    let mut found = Vec::new();
    for (x, y) in [(0, 0), (1, 0), (2, 0), (0, 1), (1, 1), (2, 2)] {
        found.push(file(&format!("4/{x}/{y}.jpg"), TILE_BYTES));
    }
    let tiles = discover_tiles(Some(found), None).unwrap();
    let patches = build_patches(&tiles, &[1, 2, 4], 1);
    let names: Vec<String> = patches.iter().map(|patch| patch.patch_id()).collect();
    assert_eq!(names.len(), 7);
    assert_eq!(names[6], "tiles_default_z4_x0-1_y0-1_s2");
    let places = build_places(&tiles, &patches);
    assert_eq!(places.len(), 6);
    assert_eq!(places[0].patch_ids.len(), 2);
    let patches = build_patches(&tiles, &[1], 2);
    let starts: Vec<(u32, u32)> =
        patches.iter().map(|patch| (patch.tile.x, patch.tile.y)).collect();
    assert_eq!(starts, vec![(0, 0), (2, 0), (2, 2)]);
}

#[test]
fn patches_at_the_edges_of_the_map() {
    let side = (1u32 << 30) - 1;
    let found = vec![
        file("0/0/0.jpg", TILE_BYTES),
        file(&format!("30/{side}/{side}.jpg"), TILE_BYTES),
    ];
    let tiles = discover_tiles(Some(found), None).unwrap();
    let patches = build_patches(&tiles, &[0, 1, 2, u32::MAX], u32::MAX);
    assert_eq!(patches.len(), 2);
    assert_eq!(patches[1].tile, Tile { x: side, y: side, z: 30 });
}

#[test]
fn groups_are_ordered_by_directory_capture_and_zoom() {
    let tiles = vec![file("b/3/1/1.jpg", b""), file("2/1/1.jpg", b""), file("b/1/1/1.jpg", b"")];
    let drone = vec![file("z/4/1/1.jpg", b"")];
    let found = discover_tiles(Some(tiles), Some(drone)).unwrap();
    let groups: Vec<(&str, String, u32)> = groups_of_tiles(&found)
        .into_iter()
        .map(|group| (group.root.name(), group.capture_id, group.z))
        .collect();
    assert_eq!(
        groups,
        vec![
            ("drone-view", "z".to_string(), 4),
            ("tiles", "b".to_string(), 1),
            ("tiles", "b".to_string(), 3),
            ("tiles", "default".to_string(), 2),
        ]
    );
}

#[test]
fn places_bring_references_and_queries_together() {
    let tiles = vec![file("3/1/1.jpg", b""), file("c/3/1/1.png", b""), file("3/2/1.jpg", b"")];
    let drone = vec![file("3/1/1.jpg", b"")];
    let found = discover_tiles(Some(tiles), Some(drone)).unwrap();
    let places = build_places(&found, &[]);
    assert_eq!(places.len(), 2);
    let place = &places[0];
    assert_eq!(place.tile, Tile { x: 1, y: 1, z: 3 });
    assert_eq!(place.first, 0);
    assert_eq!(place.roots, vec![ImageRoot::Tiles, ImageRoot::Tiles, ImageRoot::DroneView]);
    assert_eq!(place.captures, vec!["default", "c", "default"]);
    assert_eq!(place.reference_tile_ids.len(), 2);
    assert_eq!(place.query_tile_ids, vec!["drone-view_default_z3_x1_y1"]);
    assert_eq!(place.tile_ids.len(), 3);
    assert_eq!(places[1].first, 1);
}

#[test]
fn sizes_are_sorted_and_distinct() {
    assert_eq!(resolve_patch_sizes(&[4, 1, 4, 2], &[5, 5, 0, 20], true), vec![1, 2, 4, 5, 8]);
    assert_eq!(resolve_patch_sizes(&[4, 1, 4, 2], &[5, 5, 0, 20], false), vec![1, 2, 4]);
    assert_eq!(resolve_patch_sizes(&[9], &[], true), vec![9]);
}

#[test]
fn bad_options_make_no_plan() {
    assert!(plan_dataset(options(vec![], vec![0]), four_tiles(), &[]).is_err());
}
