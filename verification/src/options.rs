//! What a download and a dataset preparation are asked for, and which tiles a download selects.
use crate::double::Double;
use crate::polygon::{
    TileProbe, law_count_is_length, law_polygon_order, marked, marks_set, north_west,
    polygon_extent, polygon_tiles, probes_fit, south_east, tile_grid_for_polygon,
    tile_intersects_polygon, verdicts,
};
use crate::text::{decimal, push_decimal};
use crate::tile::{
    Coordinate, MAX_ZOOM, SelectionProgress, Tile, TileScan, advanced, grid_fits, grid_tiles,
    in_walk_order, larger, law_grid_order, law_grid_tiles, law_rectangle_holds, range_tile_count,
    rectangle_tiles, smaller, span, tile_grid, tile_grid_between, walked_before,
};
use vstd::prelude::*;
use vstd::string::StringExecFns;

verus! {

/// What to download. Where `polygon` has three points or more it selects the tiles; otherwise the
/// rectangle to the bottom right corner, where that is given; otherwise a grid.
#[derive(Debug, Clone)]
pub struct DownloadOptions {
    pub lat: Double,
    pub lon: Double,
    pub bottom_right_lat: Option<Double>,
    pub bottom_right_lon: Option<Double>,
    pub polygon: Vec<Coordinate>,
    pub geojson: Option<String>,
    pub zoom: u32,
    pub cols: u32,
    pub rows: u32,
    pub out: String,
    pub jobs: usize,
    pub tile_url_template: Option<String>,
    pub no_manifest: bool,
    pub no_demo: bool,
}

/// The bit patterns of the default latitude, 55.7303, and the default longitude, 37.6504907.
pub const DEFAULT_LAT: u64 = 0x404b_dd7a_786c_2268;

pub const DEFAULT_LON: u64 = 0x4042_d343_477d_6d13;

impl Default for DownloadOptions {
    fn default() -> (options: Self)
        ensures
            options.lat.bits == DEFAULT_LAT,
            options.lon.bits == DEFAULT_LON,
            options.bottom_right_lat is None,
            options.bottom_right_lon is None,
            options.polygon@ == Seq::<Coordinate>::empty(),
            options.geojson is None,
            options.zoom == 18,
            options.cols == 3,
            options.rows == 3,
            options.out@ == "data"@,
            options.jobs == 16,
            options.tile_url_template is None,
            !options.no_manifest,
            !options.no_demo,
    {
        DownloadOptions {
            lat: Double { bits: DEFAULT_LAT },
            lon: Double { bits: DEFAULT_LON },
            bottom_right_lat: None,
            bottom_right_lon: None,
            polygon: Vec::new(),
            geojson: None,
            zoom: 18,
            cols: 3,
            rows: 3,
            out: "data".to_owned(),
            jobs: 16,
            tile_url_template: None,
            no_manifest: false,
            no_demo: false,
        }
    }
}

/// A coordinate among the options.
#[derive(Debug, Clone, Copy, PartialEq, Eq, Structural)]
pub enum NumberField {
    Lat,
    Lon,
    BottomRightLat,
    BottomRightLon,
    PolygonLon(usize),
    PolygonLat(usize),
}

impl NumberField {
    /// The name under which the coordinate is reported.
    pub open spec fn name(self) -> Seq<char> {
        match self {
            NumberField::Lat => "lat"@,
            NumberField::Lon => "lon"@,
            NumberField::BottomRightLat => "bottom_right_lat"@,
            NumberField::BottomRightLon => "bottom_right_lon"@,
            NumberField::PolygonLon(i) => "polygon["@ + decimal(i as nat) + "].lon"@,
            NumberField::PolygonLat(i) => "polygon["@ + decimal(i as nat) + "].lat"@,
        }
    }

    fn push_name(&self, text: &mut String)
        ensures
            final(text)@ == old(text)@ + self.name(),
    {
        match self {
            NumberField::Lat => text.append("lat"),
            NumberField::Lon => text.append("lon"),
            NumberField::BottomRightLat => text.append("bottom_right_lat"),
            NumberField::BottomRightLon => text.append("bottom_right_lon"),
            NumberField::PolygonLon(i) => {
                text.append("polygon[");
                push_decimal(text, *i as u64);
                text.append("].lon");
            },
            NumberField::PolygonLat(i) => {
                text.append("polygon[");
                push_decimal(text, *i as u64);
                text.append("].lat");
            },
        }
        assert(text@ =~= old(text)@ + self.name());
    }
}

/// Why download options are refused.
#[derive(Debug, Clone, Copy, PartialEq, Eq, Structural)]
pub enum OptionsError {
    /// A coordinate is infinite or not a number.
    NotFinite(NumberField),
    /// The zoom level is above the highest.
    Zoom,
    /// The grid has no columns.
    Cols,
    /// The grid has no rows.
    Rows,
    /// No concurrent downloads are allowed.
    Jobs,
}

impl OptionsError {
    /// The report of the error.
    pub open spec fn report(self) -> Seq<char> {
        match self {
            OptionsError::NotFinite(field) => field.name() + " must be a finite number"@,
            OptionsError::Zoom => "zoom must be an integer from 0 to "@ + decimal(MAX_ZOOM as nat),
            OptionsError::Cols => "cols must be an integer at least 1"@,
            OptionsError::Rows => "rows must be an integer at least 1"@,
            OptionsError::Jobs => "jobs must be an integer at least 1"@,
        }
    }

    /// The report of the error.
    pub fn message(&self) -> (text: String)
        ensures
            text@ == self.report(),
    {
        let mut text = String::new();
        match self {
            OptionsError::NotFinite(field) => {
                field.push_name(&mut text);
                text.append(" must be a finite number");
            },
            OptionsError::Zoom => {
                text.append("zoom must be an integer from 0 to ");
                push_decimal(&mut text, MAX_ZOOM as u64);
            },
            OptionsError::Cols => text.append("cols must be an integer at least 1"),
            OptionsError::Rows => text.append("rows must be an integer at least 1"),
            OptionsError::Jobs => text.append("jobs must be an integer at least 1"),
        }
        assert(text@ =~= self.report());
        text
    }
}

/// The first coordinate that is not finite among the polygon points from number `i` on.
pub open spec fn polygon_fault(points: Seq<Coordinate>, i: int) -> Option<OptionsError>
    decreases points.len() - i,
{
    if i < 0 || i >= points.len() {
        None
    } else if !points[i].lon.finite() {
        Some(OptionsError::NotFinite(NumberField::PolygonLon(i as usize)))
    } else if !points[i].lat.finite() {
        Some(OptionsError::NotFinite(NumberField::PolygonLat(i as usize)))
    } else {
        polygon_fault(points, i + 1)
    }
}

/// What is wrong with download options: the first fault in the order in which they are looked at.
pub open spec fn options_fault(options: DownloadOptions) -> Option<OptionsError> {
    if !options.lat.finite() {
        Some(OptionsError::NotFinite(NumberField::Lat))
    } else if !options.lon.finite() {
        Some(OptionsError::NotFinite(NumberField::Lon))
    } else if options.bottom_right_lat matches Some(lat) && !lat.finite() {
        Some(OptionsError::NotFinite(NumberField::BottomRightLat))
    } else if options.bottom_right_lon matches Some(lon) && !lon.finite() {
        Some(OptionsError::NotFinite(NumberField::BottomRightLon))
    } else if polygon_fault(options.polygon@, 0) is Some {
        polygon_fault(options.polygon@, 0)
    } else if options.zoom > MAX_ZOOM {
        Some(OptionsError::Zoom)
    } else if options.cols == 0 {
        Some(OptionsError::Cols)
    } else if options.rows == 0 {
        Some(OptionsError::Rows)
    } else if options.jobs == 0 {
        Some(OptionsError::Jobs)
    } else {
        None
    }
}

fn validate_finite_number(field: NumberField, value: Double) -> (result: Result<(), OptionsError>)
    ensures
        result == (if value.finite() {
            Ok(())
        } else {
            Err(OptionsError::NotFinite(field))
        }),
{
    if value.is_finite() {
        Ok(())
    } else {
        Err(OptionsError::NotFinite(field))
    }
}

/// Refuses download options with a coordinate that is not finite, a zoom level that is too high, or
/// no columns, rows or concurrent downloads.
pub fn validate_options(options: &DownloadOptions) -> (result: Result<(), OptionsError>)
    ensures
        result == (match options_fault(*options) {
            Some(error) => Err(error),
            None => Ok(()),
        }),
{
    validate_finite_number(NumberField::Lat, options.lat)?;
    validate_finite_number(NumberField::Lon, options.lon)?;
    if let Some(lat) = options.bottom_right_lat {
        validate_finite_number(NumberField::BottomRightLat, lat)?;
    }
    if let Some(lon) = options.bottom_right_lon {
        validate_finite_number(NumberField::BottomRightLon, lon)?;
    }
    let mut i: usize = 0;
    while i < options.polygon.len()
        invariant
            0 <= i <= options.polygon@.len(),
            polygon_fault(options.polygon@, 0) == polygon_fault(options.polygon@, i as int),
            options.lat.finite(),
            options.lon.finite(),
            options.bottom_right_lat matches Some(lat) ==> lat.finite(),
            options.bottom_right_lon matches Some(lon) ==> lon.finite(),
        decreases options.polygon@.len() - i,
    {
        validate_finite_number(NumberField::PolygonLon(i), options.polygon[i].lon)?;
        validate_finite_number(NumberField::PolygonLat(i), options.polygon[i].lat)?;
        i = i + 1;
    }
    if options.zoom > MAX_ZOOM {
        return Err(OptionsError::Zoom);
    }
    if options.cols == 0 {
        return Err(OptionsError::Cols);
    }
    if options.rows == 0 {
        return Err(OptionsError::Rows);
    }
    if options.jobs == 0 {
        return Err(OptionsError::Jobs);
    }
    Ok(())
}

/// The polygon has no fault exactly where all its coordinates are finite.
pub proof fn lemma_polygon_fault(points: Seq<Coordinate>, i: int)
    requires
        0 <= i <= points.len(),
    ensures
        polygon_fault(points, i) is None <==> forall|k: int|
            i <= k < points.len() ==> (#[trigger] points[k]).lon.finite() && points[k].lat.finite(),
    decreases points.len() - i,
{
    if i < points.len() {
        lemma_polygon_fault(points, i + 1);
        if polygon_fault(points, i) is None {
            assert forall|k: int| i <= k < points.len() implies (
            #[trigger] points[k]).lon.finite() && points[k].lat.finite() by {
                if k > i {
                    assert(i + 1 <= k);
                }
            }
        } else if forall|k: int|
            i <= k < points.len() ==> (#[trigger] points[k]).lon.finite() && points[k].lat.finite() {
            assert(points[i].lon.finite() && points[i].lat.finite());
        }
    }
}

/// Download options are accepted exactly where every coordinate is finite, the zoom level is at
/// most the highest, and columns, rows and concurrent downloads are at least one.
pub proof fn law_accepted_options(options: DownloadOptions)
    ensures
        options_fault(options) is None <==> {
            &&& options.lat.finite()
            &&& options.lon.finite()
            &&& (options.bottom_right_lat matches Some(lat) ==> lat.finite())
            &&& (options.bottom_right_lon matches Some(lon) ==> lon.finite())
            &&& forall|i: int|
                0 <= i < options.polygon@.len() ==> (#[trigger] options.polygon@[i]).lon.finite()
                    && options.polygon@[i].lat.finite()
            &&& options.zoom <= MAX_ZOOM
            &&& options.cols >= 1
            &&& options.rows >= 1
            &&& options.jobs >= 1
        },
{
    lemma_polygon_fault(options.polygon@, 0);
}

/// What to prepare a dataset with.
#[derive(Debug, Clone)]
pub struct PrepareOptions {
    pub out: String,
    pub patch_sizes: Vec<u32>,
    pub stride: u32,
    pub rotations: Vec<u32>,
    pub auto400m: bool,
}

impl Default for PrepareOptions {
    fn default() -> (options: Self)
        ensures
            options.out@ == "data"@,
            options.patch_sizes@ == seq![1u32, 2, 4],
            options.stride == 1,
            options.rotations@ == seq![0u32, 45, 90, 135, 180, 225, 270, 315],
            options.auto400m,
    {
        PrepareOptions {
            out: "data".to_owned(),
            patch_sizes: vec![1, 2, 4],
            stride: 1,
            rotations: vec![0, 45, 90, 135, 180, 225, 270, 315],
            auto400m: true,
        }
    }
}

/// Why preparation options are refused.
#[derive(Debug, Clone, Copy, PartialEq, Eq, Structural)]
pub enum PrepareOptionsError {
    NoPatchSizes,
    NoRotations,
    Stride,
    PatchSize,
    Rotation,
}

impl PrepareOptionsError {
    /// The report of the error.
    pub open spec fn report(self) -> Seq<char> {
        match self {
            PrepareOptionsError::NoPatchSizes => "patch_sizes must not be empty"@,
            PrepareOptionsError::NoRotations => "rotations must not be empty"@,
            PrepareOptionsError::Stride => "stride must be an integer at least 1"@,
            PrepareOptionsError::PatchSize => "patch_sizes must be an integer at least 1"@,
            PrepareOptionsError::Rotation => "rotations must be an integer from 0 to 359"@,
        }
    }

    /// The report of the error.
    pub fn message(&self) -> (text: String)
        ensures
            text@ == self.report(),
    {
        match self {
            PrepareOptionsError::NoPatchSizes => "patch_sizes must not be empty".to_owned(),
            PrepareOptionsError::NoRotations => "rotations must not be empty".to_owned(),
            PrepareOptionsError::Stride => "stride must be an integer at least 1".to_owned(),
            PrepareOptionsError::PatchSize => {
                "patch_sizes must be an integer at least 1".to_owned()
            },
            PrepareOptionsError::Rotation => {
                "rotations must be an integer from 0 to 359".to_owned()
            },
        }
    }
}

/// What is wrong with preparation options: the first fault in the order in which they are looked
/// at.
pub open spec fn prepare_options_fault(options: PrepareOptions) -> Option<PrepareOptionsError> {
    if options.patch_sizes@.len() == 0 {
        Some(PrepareOptionsError::NoPatchSizes)
    } else if options.rotations@.len() == 0 {
        Some(PrepareOptionsError::NoRotations)
    } else if options.stride == 0 {
        Some(PrepareOptionsError::Stride)
    } else if options.patch_sizes@.contains(0) {
        Some(PrepareOptionsError::PatchSize)
    } else if exists|i: int|
        0 <= i < options.rotations@.len() && #[trigger] options.rotations@[i] > 359 {
        Some(PrepareOptionsError::Rotation)
    } else {
        None
    }
}

/// Refuses preparation options without patch sizes or rotations, with a stride or a patch size of
/// zero, or with a rotation of a full turn or more.
pub fn validate_prepare_options(options: &PrepareOptions) -> (result: Result<
    (),
    PrepareOptionsError,
>)
    ensures
        result == (match prepare_options_fault(*options) {
            Some(error) => Err(error),
            None => Ok(()),
        }),
{
    if options.patch_sizes.len() == 0 {
        return Err(PrepareOptionsError::NoPatchSizes);
    }
    if options.rotations.len() == 0 {
        return Err(PrepareOptionsError::NoRotations);
    }
    if options.stride == 0 {
        return Err(PrepareOptionsError::Stride);
    }
    let mut i: usize = 0;
    while i < options.patch_sizes.len()
        invariant
            0 <= i <= options.patch_sizes@.len(),
            options.patch_sizes@.len() > 0,
            options.rotations@.len() > 0,
            options.stride > 0,
            forall|k: int| 0 <= k < i ==> options.patch_sizes@[k] != 0,
        decreases options.patch_sizes@.len() - i,
    {
        if options.patch_sizes[i] == 0 {
            return Err(PrepareOptionsError::PatchSize);
        }
        i = i + 1;
    }
    let mut j: usize = 0;
    while j < options.rotations.len()
        invariant
            0 <= j <= options.rotations@.len(),
            options.patch_sizes@.len() > 0,
            options.rotations@.len() > 0,
            options.stride > 0,
            !options.patch_sizes@.contains(0),
            forall|k: int| 0 <= k < j ==> options.rotations@[k] <= 359,
        decreases options.rotations@.len() - j,
    {
        if options.rotations[j] > 359 {
            return Err(PrepareOptionsError::Rotation);
        }
        j = j + 1;
    }
    Ok(())
}

/// How a download selects its tiles, and the points of the globe whose tiles bound the selection.
#[derive(Debug, Clone, Copy, PartialEq, Eq, Structural)]
pub enum Selection {
    /// The tiles of a polygon, within the rectangle of these corners.
    Polygon { north_west: Coordinate, south_east: Coordinate },
    /// The rectangle of tiles between two points.
    Rectangle { first: Coordinate, second: Coordinate },
    /// The grid that starts at a point.
    Grid { origin: Coordinate },
}

/// How a download selects its tiles.
pub open spec fn options_selection(options: DownloadOptions) -> Selection {
    if options.polygon@.len() >= 3 {
        Selection::Polygon {
            north_west: north_west(options.polygon@),
            south_east: south_east(options.polygon@),
        }
    } else if options.bottom_right_lat is Some && options.bottom_right_lon is Some {
        Selection::Rectangle {
            first: Coordinate { lon: options.lon, lat: options.lat },
            second: Coordinate {
                lon: options.bottom_right_lon->0,
                lat: options.bottom_right_lat->0,
            },
        }
    } else {
        Selection::Grid { origin: Coordinate { lon: options.lon, lat: options.lat } }
    }
}

/// Decides how a download selects its tiles.
pub fn selection_for_options(options: &DownloadOptions) -> (selection: Selection)
    ensures
        selection == options_selection(*options),
{
    if options.polygon.len() >= 3 {
        let (north_west, south_east) = polygon_extent(options.polygon.as_slice());
        return Selection::Polygon { north_west, south_east };
    }
    if let (Some(lat), Some(lon)) = (options.bottom_right_lat, options.bottom_right_lon) {
        return Selection::Rectangle {
            first: Coordinate { lon: options.lon, lat: options.lat },
            second: Coordinate { lon, lat },
        };
    }
    Selection::Grid { origin: Coordinate { lon: options.lon, lat: options.lat } }
}

/// Whether the polygon of the options is still to be read from a GeoJSON source.
pub fn needs_geojson(options: &DownloadOptions) -> (answer: bool)
    ensures
        answer == (options.polygon@.len() < 3 && options.geojson is Some),
{
    options.polygon.len() < 3 && options.geojson.is_some()
}

/// The tiles that a download selects. `first` and `second` are the tiles of the points of its
/// selection; a grid has but one such point.
pub open spec fn options_tiles(
    options: DownloadOptions,
    first: Tile,
    second: Tile,
    probes: Seq<TileProbe>,
) -> Seq<Tile> {
    match options_selection(options) {
        Selection::Polygon { .. } => polygon_tiles(
            options.polygon@,
            first,
            second,
            options.zoom,
            probes,
        ),
        Selection::Rectangle { .. } => rectangle_tiles(first, second, options.zoom),
        Selection::Grid { .. } => grid_tiles(
            first.x,
            first.y,
            options.cols as nat,
            options.rows as nat,
            options.zoom,
        ),
    }
}

/// What a selection needs: for a polygon a probe of each tile around it, for a grid that its tiles
/// have coordinates in range.
pub open spec fn selection_ready(
    options: DownloadOptions,
    first: Tile,
    second: Tile,
    probes: Seq<TileProbe>,
) -> bool {
    match options_selection(options) {
        Selection::Polygon { .. } => probes_fit(
            options.polygon@,
            first,
            second,
            options.zoom,
            probes,
        ),
        Selection::Rectangle { .. } => true,
        Selection::Grid { .. } => grid_fits(
            first.x,
            first.y,
            options.cols as nat,
            options.rows as nat,
        ),
    }
}

/// Lists the tiles that a download selects.
pub fn tiles_for_options(
    options: &DownloadOptions,
    first: Tile,
    second: Tile,
    probes: &[TileProbe],
) -> (tiles: Vec<Tile>)
    requires
        selection_ready(*options, first, second, probes@),
    ensures
        tiles@ == options_tiles(*options, first, second, probes@),
{
    match selection_for_options(options) {
        Selection::Polygon { .. } => tile_grid_for_polygon(
            options.polygon.as_slice(),
            first,
            second,
            options.zoom,
            probes,
        ),
        Selection::Rectangle { .. } => tile_grid_between(first, second, options.zoom),
        Selection::Grid { .. } => tile_grid(
            Tile { x: first.x, y: first.y, z: options.zoom },
            options.cols,
            options.rows,
        ),
    }
}

/// Counts the tiles of the rectangle that two opposite corner tiles span.
fn count_rectangle(a: Tile, b: Tile, zoom: u32) -> (count: usize)
    requires
        rectangle_tiles(a, b, zoom).len() <= usize::MAX,
    ensures
        count == rectangle_tiles(a, b, zoom).len(),
{
    let (min_x, max_x) = if a.x <= b.x {
        (a.x, b.x)
    } else {
        (b.x, a.x)
    };
    let (min_y, max_y) = if a.y <= b.y {
        (a.y, b.y)
    } else {
        (b.y, a.y)
    };
    range_tile_count(min_x, max_x, min_y, max_y)
}

/// Counts the tiles that a download selects.
pub fn count_tiles_for_options(
    options: &DownloadOptions,
    first: Tile,
    second: Tile,
    probes: &[TileProbe],
) -> (count: usize)
    requires
        selection_ready(*options, first, second, probes@),
        options_tiles(*options, first, second, probes@).len() <= usize::MAX,
    ensures
        count == options_tiles(*options, first, second, probes@).len(),
{
    match selection_for_options(options) {
        Selection::Polygon { .. } => {
            let points = options.polygon.as_slice();
            let ghost marks = verdicts(probes@, points@);
            let mut count: usize = 0;
            let mut i: usize = 0;
            while i < probes.len()
                invariant
                    0 <= i <= probes@.len(),
                    count <= i,
                    points@ == options.polygon@,
                    points@.len() >= 3,
                    probes_fit(points@, first, second, options.zoom, probes@),
                    marks == verdicts(probes@, points@),
                    count == marks_set(marks, i as int),
                decreases probes@.len() - i,
            {
                assert(marks[i as int] == probes@[i as int].selected(points@));
                if tile_intersects_polygon(&probes[i], points) {
                    count = count + 1;
                }
                i = i + 1;
            }
            proof {
                law_count_is_length(rectangle_tiles(first, second, options.zoom), marks);
            }
            count
        },
        Selection::Rectangle { .. } => count_rectangle(first, second, options.zoom),
        Selection::Grid { .. } => {
            assert(options.cols * options.rows <= usize::MAX);
            options.cols as usize * options.rows as usize
        },
    }
}

/// The tiles that a walk for a download visits: for a polygon those of the rectangle around it.
pub open spec fn visited_tiles(options: DownloadOptions, first: Tile, second: Tile) -> Seq<Tile> {
    match options_selection(options) {
        Selection::Grid { .. } => grid_tiles(
            first.x,
            first.y,
            options.cols as nat,
            options.rows as nat,
            options.zoom,
        ),
        _ => rectangle_tiles(first, second, options.zoom),
    }
}

/// Starts the walk over the tiles that a download selects from.
pub fn scan_for_options(options: &DownloadOptions, first: Tile, second: Tile) -> (scan: TileScan)
    requires
        options_selection(*options) is Grid ==> grid_fits(
            first.x,
            first.y,
            options.cols as nat,
            options.rows as nat,
        ),
        visited_tiles(*options, first, second).len() <= usize::MAX,
    ensures
        scan.wf(),
        scan.tiles() == visited_tiles(*options, first, second),
        scan.counts().scanned == 0,
        scan.counts().selected == 0,
        scan.counts().total == visited_tiles(*options, first, second).len(),
{
    match selection_for_options(options) {
        Selection::Grid { .. } => TileScan::grid(
            Tile { x: first.x, y: first.y, z: options.zoom },
            options.cols,
            options.rows,
        ),
        _ => TileScan::between(first, second, options.zoom),
    }
}

/// Which of the visited tiles a download selects: for a polygon those that it selects, and
/// otherwise all.
pub open spec fn selection_marks(
    options: DownloadOptions,
    first: Tile,
    second: Tile,
    probes: Seq<TileProbe>,
) -> Seq<bool> {
    match options_selection(options) {
        Selection::Polygon { .. } => verdicts(probes, options.polygon@),
        _ => Seq::new(visited_tiles(options, first, second).len(), |i: int| true),
    }
}

/// The progress after each visited tile.
pub open spec fn progress_steps(marks: Seq<bool>) -> Seq<SelectionProgress> {
    Seq::new(
        marks.len(),
        |i: int|
            SelectionProgress {
                scanned: (i + 1) as usize,
                selected: marks_set(marks, i + 1) as usize,
                total: marks.len() as usize,
            },
    )
}

proof fn lemma_marks_set(marks: Seq<bool>, n: int)
    requires
        0 <= n <= marks.len(),
    ensures
        marks_set(marks, n) <= n,
        (forall|i: int| 0 <= i < marks.len() ==> marks[i]) ==> marks_set(marks, n) == n,
    decreases n,
{
    if n > 0 {
        lemma_marks_set(marks, n - 1);
    }
}

/// Whether a download selects a tile that its walk visits. `probe` is that of the tile against the
/// polygon, where there is one.
pub open spec fn visit_selects(options: DownloadOptions, probe: Option<TileProbe>) -> bool {
    match options_selection(options) {
        Selection::Polygon { .. } => probe matches Some(probe) && probe.selected(options.polygon@),
        _ => true,
    }
}

/// What the decision on a visited tile needs: for a polygon a probe of the tile.
pub open spec fn visit_ready(options: DownloadOptions, probe: Option<TileProbe>) -> bool {
    options_selection(options) is Polygon ==> (probe matches Some(probe) && probe.fits(
        options.polygon@,
    ))
}

/// Whether a download needs probes of the tiles that its walk visits.
pub fn needs_probes(options: &DownloadOptions) -> (answer: bool)
    ensures
        answer == (options_selection(*options) is Polygon),
{
    options.polygon.len() >= 3
}

/// Decides whether a download selects a tile that its walk visits.
pub fn selects_tile(options: &DownloadOptions, probe: Option<&TileProbe>) -> (answer: bool)
    requires
        visit_ready(
            *options,
            match probe {
                Some(probe) => Some(*probe),
                None => None,
            },
        ),
    ensures
        answer == visit_selects(
            *options,
            match probe {
                Some(probe) => Some(*probe),
                None => None,
            },
        ),
{
    if !needs_probes(options) {
        return true;
    }
    match probe {
        Some(probe) => tile_intersects_polygon(probe, options.polygon.as_slice()),
        None => false,
    }
}

/// Decides on the tile at which a walk stands, counts it and goes on: the tile where the download
/// selects it, and the progress.
pub fn visit_tile(
    options: &DownloadOptions,
    scan: &mut TileScan,
    probe: Option<&TileProbe>,
) -> (step: (Option<Tile>, SelectionProgress))
    requires
        old(scan).wf(),
        old(scan).counts().scanned < old(scan).tiles().len(),
        visit_ready(
            *options,
            match probe {
                Some(probe) => Some(*probe),
                None => None,
            },
        ),
    ensures
        final(scan).wf(),
        final(scan).tiles() == old(scan).tiles(),
        final(scan).counts() == step.1,
        ({
            let selected = visit_selects(
                *options,
                match probe {
                    Some(probe) => Some(*probe),
                    None => None,
                },
            );
            &&& step.0 == (if selected {
                Some(old(scan).tiles()[old(scan).counts().scanned as int])
            } else {
                None
            })
            &&& step.1 == advanced(old(scan).counts(), selected)
        }),
{
    let tile = scan.current();
    let selected = selects_tile(options, probe);
    let progress = scan.record(selected);
    (
        if selected {
            tile
        } else {
            None
        },
        progress,
    )
}

proof fn lemma_all_marked(tiles: Seq<Tile>, marks: Seq<bool>)
    requires
        tiles.len() <= marks.len(),
        forall|i: int| 0 <= i < tiles.len() ==> marks[i],
    ensures
        marked(tiles, marks) == tiles,
    decreases tiles.len(),
{
    if tiles.len() > 0 {
        lemma_all_marked(tiles.drop_last(), marks);
        assert(tiles.drop_last().push(tiles.last()) =~= tiles);
    } else {
        assert(marked(tiles, marks) =~= tiles);
    }
}

/// The tiles that the decisions of a walk keep are those that a download selects.
pub proof fn law_walk_selects(
    options: DownloadOptions,
    first: Tile,
    second: Tile,
    probes: Seq<TileProbe>,
)
    requires
        options_selection(options) is Polygon ==> probes_fit(
            options.polygon@,
            first,
            second,
            options.zoom,
            probes,
        ),
    ensures
        marked(
            visited_tiles(options, first, second),
            selection_marks(options, first, second, probes),
        ) == options_tiles(options, first, second, probes),
        forall|i: int|
            0 <= i < visited_tiles(options, first, second).len() ==> #[trigger] selection_marks(
                options,
                first,
                second,
                probes,
            )[i] == visit_selects(
                options,
                if options_selection(options) is Polygon {
                    Some(probes[i])
                } else {
                    None
                },
            ),
{
    if options_selection(options) !is Polygon {
        lemma_all_marked(
            visited_tiles(options, first, second),
            selection_marks(options, first, second, probes),
        );
    }
}

/// A download selects no tile twice, and lists its tiles row by row, each row from the left.
pub proof fn law_selection_order(
    options: DownloadOptions,
    first: Tile,
    second: Tile,
    probes: Seq<TileProbe>,
)
    requires
        selection_ready(options, first, second, probes),
    ensures
        in_walk_order(options_tiles(options, first, second, probes)),
        options_tiles(options, first, second, probes).no_duplicates(),
{
    let tiles = options_tiles(options, first, second, probes);
    match options_selection(options) {
        Selection::Polygon { .. } => {
            law_polygon_order(options.polygon@, first, second, options.zoom, probes);
        },
        Selection::Rectangle { .. } => {
            law_grid_order(
                smaller(first.x, second.x),
                smaller(first.y, second.y),
                span(smaller(first.x, second.x), larger(first.x, second.x)),
                span(smaller(first.y, second.y), larger(first.y, second.y)),
                options.zoom,
            );
        },
        Selection::Grid { .. } => {
            law_grid_order(
                first.x,
                first.y,
                options.cols as nat,
                options.rows as nat,
                options.zoom,
            );
        },
    }
    assert forall|i: int, j: int| 0 <= i < tiles.len() && 0 <= j < tiles.len() && i != j implies
        tiles[i] != tiles[j] by {
        if i < j {
            assert(walked_before(tiles[i], tiles[j]));
        } else {
            assert(walked_before(tiles[j], tiles[i]));
        }
    }
}

/// Counts the tiles that a walk for a download visits.
fn count_visited(options: &DownloadOptions, first: Tile, second: Tile) -> (count: usize)
    requires
        visited_tiles(*options, first, second).len() <= usize::MAX,
    ensures
        count == visited_tiles(*options, first, second).len(),
{
    match selection_for_options(options) {
        Selection::Grid { .. } => {
            assert(options.cols * options.rows <= usize::MAX);
            options.cols as usize * options.rows as usize
        },
        _ => count_rectangle(first, second, options.zoom),
    }
}

/// Counts the tiles that a download selects, and lists the progress after each tile that is looked
/// at.
pub fn count_tiles_for_options_with_progress(
    options: &DownloadOptions,
    first: Tile,
    second: Tile,
    probes: &[TileProbe],
) -> (counted: (usize, Vec<SelectionProgress>))
    requires
        options_selection(*options) is Polygon ==> probes_fit(
            options.polygon@,
            first,
            second,
            options.zoom,
            probes@,
        ),
        visited_tiles(*options, first, second).len() <= usize::MAX,
    ensures
        counted.0 == options_tiles(*options, first, second, probes@).len(),
        counted.1@ == progress_steps(selection_marks(*options, first, second, probes@)),
{
    let ghost marks = selection_marks(*options, first, second, probes@);
    let ghost visited = visited_tiles(*options, first, second);
    let by_polygon = needs_probes(options);
    let total: usize = count_visited(options, first, second);
    let mut progress = SelectionProgress { scanned: 0, selected: 0, total };
    let mut steps: Vec<SelectionProgress> = Vec::new();
    assert(steps@ =~= progress_steps(marks).take(0));
    assert(marks.len() == visited.len());
    proof {
        law_walk_selects(*options, first, second, probes@);
    }
    while progress.scanned < total
        invariant
            total == visited.len(),
            visited == visited_tiles(*options, first, second),
            options_selection(*options) is Polygon ==> probes_fit(
                options.polygon@,
                first,
                second,
                options.zoom,
                probes@,
            ),
            by_polygon == (options_selection(*options) is Polygon),
            marks == selection_marks(*options, first, second, probes@),
            marks.len() == visited.len(),
            0 <= progress.scanned <= total,
            progress.selected <= progress.scanned,
            progress.selected == marks_set(marks, progress.scanned as int),
            progress.total == total,
            steps@ == progress_steps(marks).take(progress.scanned as int),
            forall|i: int|
                0 <= i < visited.len() ==> #[trigger] marks[i] == visit_selects(
                    *options,
                    if options_selection(*options) is Polygon {
                        Some(probes@[i])
                    } else {
                        None
                    },
                ),
        decreases total - progress.scanned,
    {
        let i: usize = progress.scanned;
        let probe = if by_polygon {
            Some(&probes[i])
        } else {
            None
        };
        let matches = selects_tile(options, probe);
        assert(matches == marks[i as int]);
        proof {
            lemma_marks_set(marks, i as int);
        }
        progress = progress.advance(matches);
        steps.push(progress);
        assert(steps@ =~= progress_steps(marks).take(i + 1));
    }
    proof {
        assert(progress_steps(marks).take(total as int) == progress_steps(marks));
        law_count_is_length(visited, marks);
    }
    (progress.selected, steps)
}

/// Which fault of download options is reported: the latitude before the longitude, the first corner
/// before the second, the corners before the polygon, then zoom level, columns, rows and jobs.
pub proof fn law_reported_fault(options: DownloadOptions)
    ensures
        ({
            let fault = options_fault(options);
            let first = options.lat.finite() && options.lon.finite();
            let second = (options.bottom_right_lat matches Some(lat) ==> lat.finite()) && (
            options.bottom_right_lon matches Some(lon) ==> lon.finite());
            let points = forall|i: int|
                0 <= i < options.polygon@.len() ==> (#[trigger] options.polygon@[i]).lon.finite()
                    && options.polygon@[i].lat.finite();
            &&& fault == Some(OptionsError::NotFinite(NumberField::Lat)) <==> !options.lat.finite()
            &&& fault == Some(OptionsError::NotFinite(NumberField::Lon)) <==> options.lat.finite()
                && !options.lon.finite()
            &&& first && (options.bottom_right_lat matches Some(lat) && !lat.finite()) ==> fault
                == Some(OptionsError::NotFinite(NumberField::BottomRightLat))
            &&& first && (options.bottom_right_lat matches Some(lat) ==> lat.finite()) && (
            options.bottom_right_lon matches Some(lon) && !lon.finite()) ==> fault == Some(
                OptionsError::NotFinite(NumberField::BottomRightLon),
            )
            &&& first && second && points ==> {
                &&& options.zoom > 30 ==> fault == Some(OptionsError::Zoom)
                &&& options.zoom <= 30 && options.cols == 0 ==> fault == Some(OptionsError::Cols)
                &&& options.zoom <= 30 && options.cols > 0 && options.rows == 0 ==> fault == Some(
                    OptionsError::Rows,
                )
                &&& options.zoom <= 30 && options.cols > 0 && options.rows > 0 && options.jobs == 0
                    ==> fault == Some(OptionsError::Jobs)
                &&& options.zoom <= 30 && options.cols > 0 && options.rows > 0 && options.jobs > 0
                    ==> fault is None
            }
        }),
{
    lemma_polygon_fault(options.polygon@, 0);
    lemma_polygon_fault_kind(options.polygon@, 0);
}

proof fn lemma_polygon_fault_kind(points: Seq<Coordinate>, i: int)
    requires
        0 <= i <= points.len(),
    ensures
        polygon_fault(points, i) matches Some(error) ==> error matches OptionsError::NotFinite(
            field,
        ) && (field is PolygonLon || field is PolygonLat),
    decreases points.len() - i,
{
    if i < points.len() {
        lemma_polygon_fault_kind(points, i + 1);
    }
}

/// The first point of a polygon with a coordinate that is not finite is reported by its number, its
/// longitude before its latitude.
pub proof fn law_first_bad_vertex(options: DownloadOptions, k: int)
    requires
        options.lat.finite(),
        options.lon.finite(),
        options.bottom_right_lat matches Some(lat) ==> lat.finite(),
        options.bottom_right_lon matches Some(lon) ==> lon.finite(),
        0 <= k < options.polygon@.len() <= usize::MAX,
        forall|i: int|
            0 <= i < k ==> (#[trigger] options.polygon@[i]).lon.finite()
                && options.polygon@[i].lat.finite(),
    ensures
        !options.polygon@[k].lon.finite() ==> options_fault(options) == Some(
            OptionsError::NotFinite(NumberField::PolygonLon(k as usize)),
        ),
        options.polygon@[k].lon.finite() && !options.polygon@[k].lat.finite() ==> options_fault(
            options,
        ) == Some(OptionsError::NotFinite(NumberField::PolygonLat(k as usize))),
{
    lemma_fault_from(options.polygon@, 0, k);
}

proof fn lemma_fault_from(points: Seq<Coordinate>, i: int, k: int)
    requires
        0 <= i <= k < points.len(),
        forall|j: int|
            i <= j < k ==> (#[trigger] points[j]).lon.finite() && points[j].lat.finite(),
    ensures
        polygon_fault(points, i) == polygon_fault(points, k),
    decreases k - i,
{
    if i < k {
        assert(points[i].lon.finite() && points[i].lat.finite());
        lemma_fault_from(points, i + 1, k);
    }
}

/// How the faults of download options are reported.
pub proof fn law_fault_reports(i: usize)
    ensures
        OptionsError::NotFinite(NumberField::Lat).report() == "lat"@ + " must be a finite number"@,
        OptionsError::NotFinite(NumberField::Lon).report() == "lon"@ + " must be a finite number"@,
        OptionsError::NotFinite(NumberField::BottomRightLat).report() == "bottom_right_lat"@
            + " must be a finite number"@,
        OptionsError::NotFinite(NumberField::BottomRightLon).report() == "bottom_right_lon"@
            + " must be a finite number"@,
        OptionsError::NotFinite(NumberField::PolygonLon(i)).report() == "polygon["@ + decimal(
            i as nat,
        ) + "].lon"@ + " must be a finite number"@,
        OptionsError::NotFinite(NumberField::PolygonLat(i)).report() == "polygon["@ + decimal(
            i as nat,
        ) + "].lat"@ + " must be a finite number"@,
        OptionsError::Zoom.report() == "zoom must be an integer from 0 to "@ + "30"@,
        OptionsError::Cols.report() == "cols must be an integer at least 1"@,
        OptionsError::Rows.report() == "rows must be an integer at least 1"@,
        OptionsError::Jobs.report() == "jobs must be an integer at least 1"@,
{
    reveal_strlit("30");
    reveal_with_fuel(decimal, 3);
    assert(decimal(30) =~= "30"@);
}

/// Preparation options are accepted exactly where there are sizes and rotations, every size and the
/// stride are at least one and every rotation is below a full turn; the first fault is reported.
pub proof fn law_accepted_prepare_options(options: PrepareOptions)
    ensures
        ({
            let fault = prepare_options_fault(options);
            let sizes = options.patch_sizes@;
            let rotations = options.rotations@;
            let sound = forall|i: int| 0 <= i < sizes.len() ==> #[trigger] sizes[i] >= 1;
            let turned = forall|i: int| 0 <= i < rotations.len() ==> #[trigger] rotations[i] < 360;
            &&& fault is None <==> sizes.len() > 0 && rotations.len() > 0 && options.stride >= 1
                && sound && turned
            &&& fault == Some(PrepareOptionsError::NoPatchSizes) <==> sizes.len() == 0
            &&& fault == Some(PrepareOptionsError::NoRotations) <==> sizes.len() > 0
                && rotations.len() == 0
            &&& fault == Some(PrepareOptionsError::Stride) <==> sizes.len() > 0 && rotations.len()
                > 0 && options.stride == 0
            &&& fault == Some(PrepareOptionsError::PatchSize) <==> sizes.len() > 0
                && rotations.len() > 0 && options.stride > 0 && !sound
            &&& fault == Some(PrepareOptionsError::Rotation) <==> sizes.len() > 0
                && rotations.len() > 0 && options.stride > 0 && sound && !turned
        }),
{
    let sizes = options.patch_sizes@;
    if exists|i: int| 0 <= i < sizes.len() && !(#[trigger] sizes[i] >= 1) {
        let i = choose|i: int| 0 <= i < sizes.len() && !(#[trigger] sizes[i] >= 1);
        assert(sizes[i] == 0);
        assert(sizes.contains(0));
    }
    if sizes.contains(0) {
        let i = choose|i: int| 0 <= i < sizes.len() && sizes[i] == 0;
        assert(!(sizes[i] >= 1));
    }
}

/// Three points or more select by the polygon, whatever else is given; else both coordinates of the
/// second corner select the rectangle between the two corners; else the grid starts at the first.
pub proof fn law_selection_kind(options: DownloadOptions)
    ensures
        ({
            let selection = options_selection(options);
            let points = options.polygon@;
            &&& points.len() > 2 ==> selection == (Selection::Polygon {
                north_west: north_west(points),
                south_east: south_east(points),
            })
            &&& points.len() < 3 && (options.bottom_right_lat is None
                || options.bottom_right_lon is None) ==> (selection matches Selection::Grid {
                origin,
            } && origin.lat == options.lat && origin.lon == options.lon)
            &&& points.len() < 3 ==> (options.bottom_right_lat matches Some(lat) ==> (
            options.bottom_right_lon matches Some(lon) ==> (selection matches Selection::Rectangle {
                first,
                second,
            } && first.lat == options.lat && first.lon == options.lon && second.lat == lat
                && second.lon == lon)))
        }),
{
}

/// The tiles of a download: of a rectangle those between its corner tiles, of a grid those in its
/// columns and rows from the first tile on, all at the zoom level that was asked for.
pub proof fn law_selected_area(
    options: DownloadOptions,
    first: Tile,
    second: Tile,
    probes: Seq<TileProbe>,
    tile: Tile,
)
    requires
        selection_ready(options, first, second, probes),
        options.polygon@.len() < 3,
    ensures
        ({
            let tiles = options_tiles(options, first, second, probes);
            &&& options.bottom_right_lat is Some && options.bottom_right_lon is Some ==> (
            tiles.contains(tile) <==> tile.z == options.zoom && (first.x <= tile.x <= second.x
                || second.x <= tile.x <= first.x) && (first.y <= tile.y <= second.y || second.y
                <= tile.y <= first.y))
            &&& options.bottom_right_lat is None || options.bottom_right_lon is None ==> (
            tiles.contains(tile) <==> tile.z == options.zoom && first.x <= tile.x < first.x
                + options.cols && first.y <= tile.y < first.y + options.rows)
        }),
{
    law_rectangle_holds(first, second, options.zoom, tile);
    if options_selection(options) is Grid {
        law_grid_tiles(
            first.x,
            first.y,
            options.cols as nat,
            options.rows as nat,
            options.zoom,
            tile,
        );
    }
}

/// The progress names each visited tile once: the first step has scanned one, each step one more
/// than the step before, and it has selected one more exactly where the tile is selected; all steps
/// name the same total, and the last has scanned all of it.
pub proof fn law_progress_steps(marks: Seq<bool>, i: int)
    requires
        0 <= i < marks.len() <= usize::MAX,
    ensures
        ({
            let steps = progress_steps(marks);
            &&& steps.len() == marks.len()
            &&& steps[i].total == marks.len()
            &&& steps[i].scanned == i + 1
            &&& steps[0].selected == if marks[0] {
                1int
            } else {
                0int
            }
            &&& i > 0 && marks[i] ==> steps[i].selected == steps[i - 1].selected + 1
            &&& i > 0 && !marks[i] ==> steps[i].selected == steps[i - 1].selected
        }),
{
    lemma_marks_set(marks, i);
    lemma_marks_set(marks, i + 1);
    reveal_with_fuel(marks_set, 2);
}

/// How the faults of preparation options are reported.
pub proof fn law_prepare_reports()
    ensures
        PrepareOptionsError::NoPatchSizes.report() == "patch_sizes must not be empty"@,
        PrepareOptionsError::NoRotations.report() == "rotations must not be empty"@,
        PrepareOptionsError::Stride.report() == "stride must be an integer at least 1"@,
        PrepareOptionsError::PatchSize.report() == "patch_sizes must be an integer at least 1"@,
        PrepareOptionsError::Rotation.report() == "rotations must be an integer from 0 to 359"@,
{
}

} // verus!
