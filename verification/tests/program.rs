use geodot::cli::{
    choose_command, download_report_due, parse_finite_f64, parse_polygon, parse_positive_u16,
    parse_positive_u32, parse_positive_usize, parse_u32_list, parse_zoom, polygon_texts,
    prepare_options, selection_origin, selection_report_due, should_download, Command,
    PointNumbers, SelectionArgs, NO_ORIGIN,
};
use geodot::demo::{demo_data, demo_html, extent_of_report, DEMO_HEAD, DEMO_TAIL};
use geodot::download::{
    after_answer, agent_or_first, attempt_url, random_ua, tile_url, SERVERS,
};
use geodot::server::{
    content_type, is_tile_route, percent_decode, read_target, reply_for_file, response_head,
    route_path, route_request, unescape, Reply, Route, EMPTY_PNG,
};
use geodot::text::{
    decimal_text, ends_with, lower_text, parse_unsigned, replace_text, split_text, starts_with,
    trim_leading,
};
use geodot::{
    Coordinate, Double, DownloadProgress, DownloadReport, Json, SelectionProgress, Tile, TileBounds,
};

fn double(value: f64) -> Double {
    Double { bits: value.to_bits() }
}

fn bounds(west: f64, south: f64, east: f64, north: f64) -> TileBounds {
    TileBounds {
        lat_min: double(south),
        lon_min: double(west),
        lat_max: double(north),
        lon_max: double(east),
    }
}

fn file_of(route: Route) -> Option<String> {
    match route {
        Route::File(path) => Some(path),
        Route::Forbidden => None,
    }
}

#[test]
fn cli_rejects_invalid_numbers() {
    let error = parse_positive_usize("https://example.com/area.geojson").unwrap_err();
    assert_eq!(error, "invalid integer: https://example.com/area.geojson");
    let error = parse_finite_f64("NaN", Some(double(f64::NAN))).unwrap_err();
    assert_eq!(error, "must be a finite number");
    assert_eq!(parse_finite_f64("x", None).unwrap_err(), "invalid number: x");
    assert_eq!(parse_finite_f64("2.5", Some(double(2.5))).unwrap(), double(2.5));
}

#[test]
fn numbers_are_read_like_the_standard_library_does() {
    for text in ["0", "1", "+7", "-1", "", "+", "007", "4294967295", "4294967296", "12a", " 1", "٣"] {
        let parsed = text.parse::<u32>().ok();
        assert_eq!(parse_unsigned(text, u32::MAX as u64), parsed.map(u64::from));
        assert_eq!(parse_positive_u32(text).ok(), parsed.filter(|n| *n > 0));
    }
    assert_eq!(parse_positive_u32("0").unwrap_err(), "must be at least 1");
    assert_eq!(parse_positive_u16("65535"), Ok(65535));
    assert_eq!(parse_positive_u16("65536").unwrap_err(), "invalid integer: 65536");
    assert_eq!(parse_positive_usize("18"), Ok(18));
    assert_eq!(parse_zoom("30"), Ok(30));
    assert_eq!(parse_zoom("0"), Ok(0));
    assert_eq!(parse_zoom("31").unwrap_err(), "must be from 0 to 30");
    assert_eq!(parse_zoom("x").unwrap_err(), "invalid integer: x");
    assert_eq!(decimal_text(u64::MAX), u64::MAX.to_string());
    assert_eq!(decimal_text(0), "0");
}

#[test]
fn lists_of_numbers_pass_over_empty_pieces() {
    assert_eq!(parse_u32_list("1,2,4"), Ok(vec![1, 2, 4]));
    assert_eq!(parse_u32_list(",1,,2,"), Ok(vec![1, 2]));
    assert_eq!(parse_u32_list("1,x").unwrap_err(), "invalid integer list: 1,x");
    assert_eq!(parse_u32_list(",").unwrap_err(), "must contain at least one integer");
}

fn read_polygon(value: &str) -> Result<Vec<Coordinate>, String> {
    let read = |text: &str| text.parse::<f64>().ok().map(double);
    let numbers: Vec<PointNumbers> = polygon_texts(value)
        .iter()
        .map(|point| match point {
            Some(point) => PointNumbers { lon: read(&point.lon), lat: read(&point.lat) },
            None => PointNumbers { lon: None, lat: None },
        })
        .collect();
    parse_polygon(value, &numbers)
}

#[test]
fn polygons_are_read_from_pairs() {
    let polygon = read_polygon("37.6504,55.7304;37.6520,55.7304;37.6520,55.7297").unwrap();
    assert_eq!(polygon.len(), 3);
    assert_eq!(polygon[1], Coordinate { lon: double(37.652), lat: double(55.7304) });
    assert_eq!(read_polygon("1,2;3").unwrap_err(), "polygon points must be lon,lat pairs");
    assert_eq!(read_polygon("a,2;3,4;5,6").unwrap_err(), "invalid longitude: a");
    assert_eq!(read_polygon("1,2,3;3,4;5,6").unwrap_err(), "invalid latitude: 2,3");
    assert_eq!(
        read_polygon("1,2;3,4").unwrap_err(),
        "polygon requires at least three lon,lat pairs"
    );
    assert_eq!(
        read_polygon("1,2;3,4;5,inf").unwrap_err(),
        "polygon coordinates must be finite numbers"
    );
}

#[test]
fn commands_are_named_by_the_first_argument() {
    assert_eq!(choose_command(None), Command::Help);
    assert_eq!(choose_command(Some("-v")), Command::Version);
    assert_eq!(choose_command(Some("--version")), Command::Version);
    assert_eq!(choose_command(Some("demo")), Command::Demo);
    assert_eq!(choose_command(Some("render")), Command::Render);
    assert_eq!(choose_command(Some("validate")), Command::Validate);
    assert_eq!(choose_command(Some("-x")), Command::Download);
}

#[test]
fn a_preparation_downloads_where_tiles_are_selected() {
    let nothing = SelectionArgs {
        lat: false,
        lon: false,
        bottom_right_lat: false,
        bottom_right_lon: false,
        polygon: false,
        geojson: false,
    };
    assert!(!should_download(true, &nothing));
    assert!(should_download(false, &nothing));
    assert!(should_download(true, &SelectionArgs { geojson: true, ..nothing }));
    assert!(should_download(true, &SelectionArgs { lat: true, lon: true, ..nothing }));
}

#[test]
fn a_selection_starts_at_the_point_or_the_corner() {
    let polygon = [
        Coordinate { lon: double(3.0), lat: double(1.0) },
        Coordinate { lon: double(2.0), lat: double(5.0) },
    ];
    let given = selection_origin(Some(double(8.0)), Some(double(9.0)), &polygon).unwrap();
    assert_eq!(given, Coordinate { lon: double(9.0), lat: double(8.0) });
    let corner = selection_origin(Some(double(8.0)), None, &polygon).unwrap();
    assert_eq!(corner, Coordinate { lon: double(2.0), lat: double(5.0) });
    assert_eq!(selection_origin(None, None, &[]).unwrap_err(), NO_ORIGIN);
}

#[test]
fn progress_is_reported_once_a_second_and_at_the_end() {
    let selection = SelectionProgress { scanned: 1, selected: 1, total: 9 };
    assert!(!selection_report_due(&selection, true));
    assert!(selection_report_due(&selection, false));
    assert!(selection_report_due(&SelectionProgress { total: 0, ..selection }, true));
    let tile = Tile { x: 0, y: 0, z: 0 };
    let download = DownloadProgress { completed: 3, downloaded: 2, failed: 1, tile };
    assert!(!download_report_due(&download, 4, true));
    assert!(download_report_due(&download, 3, true));
    assert!(download_report_due(&download, 4, false));
}

#[test]
fn addresses_follow_the_template() {
    let tile = Tile { x: 1, y: 2, z: 3 };
    assert_eq!(
        tile_url("mt0", tile, Some("http://h/{sub}/{z}/{x}/{y}.jpg?{x}")),
        "http://h/mt0/3/1/2.jpg?1"
    );
    assert_eq!(tile_url("mt1", tile, None), "https://mt1.google.com/vt/lyrs=s&x=1&y=2&z=3");
    assert_eq!(attempt_url(3, tile, Some("{sub}")).as_deref(), Some("mt3"));
    assert_eq!(attempt_url(SERVERS, tile, None), None);
}

#[test]
fn answers_need_success_and_length() {
    assert_eq!(after_answer(0, true, 101), None);
    assert_eq!(after_answer(0, true, 100), Some(1));
    assert_eq!(after_answer(3, false, 5000), Some(4));
}

#[test]
fn the_first_good_answer_wins() {
    let answers = [(false, 500), (true, 9), (true, 200), (true, 300)];
    let tile = Tile { x: 0, y: 0, z: 0 };
    let mut attempt = 0;
    let mut winner = None;
    while let Some(url) = attempt_url(attempt, tile, Some("{sub}")) {
        let (success, bytes) = answers[attempt];
        match after_answer(attempt, success, bytes) {
            Some(next) => attempt = next,
            None => {
                winner = Some(url);
                break;
            }
        }
    }
    assert_eq!(winner.as_deref(), Some("mt2"));
}

#[test]
fn user_agents_are_chosen_from_the_list() {
    for _ in 0..50 {
        assert!(random_ua().starts_with("Mozilla/5.0 ("));
    }
    let mut seen: Vec<&str> = (0..400).map(|_| random_ua()).collect();
    seen.sort();
    seen.dedup();
    assert_eq!(seen.len(), 5);
    assert_eq!(agent_or_first(None, &["a", "b"]), "a");
    assert_eq!(agent_or_first(Some("b"), &["a", "b"]), "b");
}

#[test]
fn a_download_is_recorded_tile_by_tile() {
    let center = Tile { x: 1, y: 1, z: 3 };
    let mut report = DownloadReport::new(center);
    let area = bounds(-135.0, 0.0, -90.0, 40.0);
    let progress = report.record("data", center, area, Some(128));
    assert_eq!((progress.completed, progress.downloaded, progress.failed), (1, 1, 0));
    let missing = Tile { x: 2, y: 1, z: 3 };
    let progress = report.record("data", missing, area, None);
    assert_eq!((progress.completed, progress.downloaded, progress.failed), (2, 1, 1));
    assert_eq!(progress.tile, missing);
    assert_eq!(report.tiles[0].path, "data/tiles/3/1/1.jpg");
    assert_eq!(report.tiles[0].bytes, 128);
    assert_eq!(report.failed, vec![missing]);
    assert_eq!(report.tiles.len() + report.failed.len(), 2);
}

#[test]
fn the_page_shows_the_downloaded_tiles() {
    let mut report = DownloadReport::new(Tile { x: 1, y: 1, z: 3 });
    let center = bounds(9.0, 9.0, 9.0, 9.0);
    let extent = extent_of_report(&report, center);
    assert_eq!((extent.bounds, extent.zoom), (center, 3));
    report.record("data", Tile { x: 1, y: 2, z: 4 }, bounds(0.0, 1.0, 2.0, 3.0), Some(200));
    report.record("data", Tile { x: 2, y: 2, z: 4 }, bounds(2.0, -1.0, 4.0, 2.0), Some(200));
    let extent = extent_of_report(&report, center);
    assert_eq!(extent.bounds, bounds(0.0, -1.0, 4.0, 3.0));
    assert_eq!(extent.zoom, 4);
    let middle = Coordinate { lon: double(2.0), lat: double(1.0) };
    let data = demo_data(&report, &extent, &middle);
    assert_eq!(data.get_list("tiles").unwrap().len(), 2);
    assert_eq!(data.get("zoom").unwrap().as_unsigned(), Some(4));
    assert_eq!(data.get("center").unwrap().get("x").unwrap().as_unsigned(), Some(1));
    let corners = data.get_list("bounds").unwrap();
    assert_eq!(corners[1].as_list().unwrap()[1].as_double(), Some(double(3.0)));
    assert!(matches!(data.get("mapCenter"), Some(Json::List(_))));
}

#[test]
fn the_page_keeps_its_promises() {
    let demo = demo_html("{\"zoom\":18}");
    assert!(demo.contains("maplibregl.Map"));
    assert!(demo.contains("World_Imagery"));
    assert!(demo.contains("./tiles/{z}/{x}/{y}.jpg"));
    assert!(!demo.contains("%7Bz%7D"));
    assert!(demo.contains("minZoom: data.zoom"));
    assert!(demo.contains("maxZoom: data.zoom"));
    assert!(!demo.contains("fitBounds"));
    assert!(demo.contains("const data = {\"zoom\":18};\n"));
    assert!(demo.contains("id=\"opacity\""));
    assert!(demo.starts_with(DEMO_HEAD) && demo.ends_with(DEMO_TAIL));
}

#[test]
fn percent_codes_are_decoded() {
    assert_eq!(percent_decode("/a%20b%2Fc"), "/a b/c");
    assert_eq!(percent_decode("plain/ü"), "plain/ü");
    assert_eq!(percent_decode("%"), "%");
    assert_eq!(percent_decode("100%4"), "100%4");
    assert_eq!(percent_decode("%41"), "A");
    assert_eq!(percent_decode("%zz%4a"), "%zzJ");
    assert_eq!(percent_decode("%+A"), "\n");
    assert_eq!(percent_decode("%C3%BC"), "ü");
    assert_eq!(percent_decode("%FF"), "\u{fffd}");
    assert_eq!(unescape(b"%e2%82"), vec![0xe2, 0x82]);
}

#[test]
fn requests_are_routed_to_files() {
    let route = |request: &str| file_of(route_request(request.as_bytes()));
    assert_eq!(route("GET / HTTP/1.1\r\nHost: x\r\n\r\n").as_deref(), Some("index.html"));
    assert_eq!(route("").as_deref(), Some("index.html"));
    assert_eq!(route("GET\n/a HTTP/1.1").as_deref(), Some("index.html"));
    assert_eq!(route("GET /report.json?v=1 HTTP/1.1").as_deref(), Some("report.json"));
    assert_eq!(route("GET /18/2/3.jpg HTTP/1.1").as_deref(), Some("index.html"));
    assert_eq!(route("GET /tiles/18/2/3.jpg HTTP/1.1").as_deref(), Some("tiles/18/2/3.jpg"));
    assert_eq!(route("GET /a%2fb HTTP/1.1").as_deref(), Some("a/b"));
    assert_eq!(route("GET /../x HTTP/1.1"), None);
    assert_eq!(route("GET /a/%2e%2e/x HTTP/1.1"), None);
    assert_eq!(route("GET //etc/passwd HTTP/1.1").as_deref(), Some("etc/passwd"));
    assert_eq!(file_of(route_path("/..a")).as_deref(), Some("..a"));
    assert_eq!(read_target("GET  /x?y  HTTP/1.1"), "/x");
    assert_eq!(file_of(route_request(&[0xff, b' ', b'/', 0xff])).as_deref(), Some("\u{fffd}"));
}

#[test]
fn tile_routes_have_three_numbers() {
    assert!(is_tile_route("/12/2367/1306.jpg"));
    assert!(is_tile_route("12/2367/1306"));
    assert!(!is_tile_route("/12/2367"));
    assert!(!is_tile_route("/12/2367/1306/1"));
    assert!(!is_tile_route("/12/x/1306.jpg"));
    assert!(!is_tile_route("/12/2367/.jpg"));
}

#[test]
fn answers_depend_on_the_file() {
    assert_eq!(reply_for_file("index.html", true), Reply::Contents);
    assert_eq!(reply_for_file("tiles/1/2/3.jpg", false), Reply::Blank);
    assert_eq!(reply_for_file("tiles/1/2/3.png", false), Reply::NotFound);
    assert_eq!(reply_for_file("x.jpg", false), Reply::NotFound);
    assert_eq!(Reply::Blank.body(vec![1]), EMPTY_PNG.to_vec());
    assert_eq!(Reply::Contents.body(vec![1]), vec![1]);
    assert_eq!(Reply::NotFound.body(vec![]), b"Not found".to_vec());
    assert_eq!(Reply::Forbidden.body(vec![]), b"Forbidden".to_vec());
    assert_eq!(Reply::NotFound.status(), "404 Not Found");
    assert_eq!(Reply::Forbidden.status(), "403 Forbidden");
    assert_eq!(Reply::Blank.status(), "200 OK");
    assert_eq!(Reply::Blank.kind("x.jpg"), "image/png");
    assert_eq!(Reply::Contents.kind("x.jpg"), "image/jpeg");
    assert_eq!(Reply::NotFound.kind("x.jpg"), "text/plain");
    assert_eq!(
        response_head("200 OK", "text/plain", 12),
        "HTTP/1.1 200 OK\r\nContent-Type: text/plain\r\nContent-Length: 12\r\nConnection: close\r\n\r\n"
    );
}

#[test]
fn contents_are_told_by_the_extension() {
    assert_eq!(content_type("a/index.html"), "text/html; charset=utf-8");
    assert_eq!(content_type("1.jpg"), "image/jpeg");
    assert_eq!(content_type("1.jpeg"), "image/jpeg");
    assert_eq!(content_type("a.json"), "application/json");
    assert_eq!(content_type("a.JSON"), "application/octet-stream");
    assert_eq!(content_type("json"), "application/octet-stream");
    assert_eq!(content_type("a.html/"), "text/html; charset=utf-8");
    assert_eq!(content_type("a.jpg/.."), "application/octet-stream");
}

#[test]
fn texts_are_split_and_replaced_like_the_standard_library_does() {
    for text in ["", "a", "a,b", ",", "a,,b,", "é,ü"] {
        let pieces: Vec<String> = text.split(',').map(|piece| piece.to_string()).collect();
        assert_eq!(split_text(text, ','), pieces);
        assert_eq!(trim_leading(text, ','), text.trim_start_matches(','));
        assert_eq!(lower_text(text), text.to_ascii_lowercase());
    }
    assert_eq!(replace_text("aaa", "aa", "b"), "aaa".replace("aa", "b"));
    assert_eq!(replace_text("{x}{x}", "{x}", "{x}1"), "{x}1{x}1");
    assert_eq!(lower_text("JpG\u{c9}"), "jpg\u{c9}");
    assert!(starts_with("tiles/1", "tiles/") && !starts_with("tile", "tiles/"));
    assert!(ends_with("a.jpg", ".jpg") && !ends_with("jpg", ".jpg"));
}

#[test]
fn given_sizes_leave_out_the_automatic_one() {
    let options = prepare_options("data".to_string(), None, 2, Some("0,90")).unwrap();
    assert_eq!(options.patch_sizes, vec![1, 2, 4]);
    assert_eq!(options.rotations, vec![0, 90]);
    assert_eq!((options.stride, options.auto400m), (2, true));
    let options = prepare_options("data".to_string(), Some("1,2,3"), 1, None).unwrap();
    assert_eq!(options.patch_sizes, vec![1, 2, 3]);
    assert_eq!(options.rotations.len(), 8);
    assert!(!options.auto400m);
    let error = prepare_options("data".to_string(), Some("x"), 1, Some("y")).unwrap_err();
    assert_eq!(error, "invalid integer list: x");
}
