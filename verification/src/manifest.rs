//! The documents of a prepared dataset.
use crate::discover::{TileRecord, TileView};
use crate::double::{Double, ONE, ZERO};
use crate::ids::{
    ImageRoot, place_id, place_name, scale_name, scale_profile, tile_id, variant_id, variant_name,
};
use crate::json::{Json, JsonNumber, JsonView, field_views, json_views, put};
use crate::patches::{Patch, PatchView, patch_bounds, spanned};
use crate::places::{Place, PlaceView};
use crate::text::texts;
use crate::tile::{Coordinate, TILE_SIZE, TileBounds};
use vstd::prelude::*;

verus! {

/// Where an image lies on the globe.
#[derive(Debug, Clone, Copy, PartialEq, Eq, Structural)]
pub struct TileGeometry {
    pub bounds: TileBounds,
    pub center: Coordinate,
}

/// Where a mosaic lies on the globe, and how wide the ground is that it shows.
#[derive(Debug, Clone, Copy, PartialEq, Eq, Structural)]
pub struct PatchGeometry {
    /// What the tile in the top left corner covers.
    pub first: TileBounds,
    /// What the tile in the bottom right corner covers.
    pub last: TileBounds,
    pub center: Coordinate,
    pub ground_width_m: Double,
}

impl PatchGeometry {
    /// What the mosaic covers.
    pub open spec fn bounds(self) -> TileBounds {
        spanned(self.first, self.last)
    }
}

/// A whole number in a document.
pub open spec fn count_view(n: nat) -> JsonView {
    JsonView::Number(JsonNumber::Unsigned(n as u64))
}

/// Any other number in a document.
pub open spec fn real_view(d: Double) -> JsonView {
    JsonView::Number(JsonNumber::Real(d))
}

/// A list of texts in a document.
pub open spec fn texts_view(list: Seq<Seq<char>>) -> JsonView {
    JsonView::List(list.map_values(|text: Seq<char>| JsonView::Text(text)))
}

/// A list of whole numbers in a document.
pub open spec fn counts_view(list: Seq<u32>) -> JsonView {
    JsonView::List(list.map_values(|n: u32| count_view(n as nat)))
}

/// The bounds of an image or a mosaic in a document: west, south, east, north.
pub open spec fn bbox_view(bounds: TileBounds) -> JsonView {
    JsonView::List(
        seq![
            real_view(bounds.lon_min),
            real_view(bounds.lat_min),
            real_view(bounds.lon_max),
            real_view(bounds.lat_max),
        ],
    )
}

pub(crate) fn texts_json(list: &[String]) -> (json: Json)
    ensures
        json@ == texts_view(texts(list@)),
{
    let ghost views = texts(list@).map_values(|text: Seq<char>| JsonView::Text(text));
    let mut items: Vec<Json> = Vec::new();
    let mut i: usize = 0;
    assert(json_views(items@) =~= views.take(0));
    while i < list.len()
        invariant
            0 <= i <= list@.len(),
            views == texts(list@).map_values(|text: Seq<char>| JsonView::Text(text)),
            json_views(items@) == views.take(i as int),
        decreases list@.len() - i,
    {
        let ghost before = items@;
        items.push(Json::text(list[i].as_str()));
        assert(texts(list@)[i as int] == list@[i as int]@);
        assert(json_views(items@) =~= json_views(before).push(views[i as int]));
        assert(views.take(i + 1) =~= views.take(i as int).push(views[i as int]));
        i = i + 1;
    }
    assert(views.take(i as int) == views);
    Json::list(items)
}

pub(crate) fn counts_json(list: &[u32]) -> (json: Json)
    ensures
        json@ == counts_view(list@),
{
    let ghost views = list@.map_values(|n: u32| count_view(n as nat));
    let mut items: Vec<Json> = Vec::new();
    let mut i: usize = 0;
    assert(json_views(items@) =~= views.take(0));
    while i < list.len()
        invariant
            0 <= i <= list@.len(),
            views == list@.map_values(|n: u32| count_view(n as nat)),
            json_views(items@) == views.take(i as int),
        decreases list@.len() - i,
    {
        let ghost before = items@;
        items.push(Json::unsigned(list[i] as u64));
        assert(json_views(items@) =~= json_views(before).push(views[i as int]));
        assert(views.take(i + 1) =~= views.take(i as int).push(views[i as int]));
        i = i + 1;
    }
    assert(views.take(i as int) == views);
    Json::list(items)
}

fn bbox_json(bounds: &TileBounds) -> (json: Json)
    ensures
        json@ == bbox_view(*bounds),
{
    let items = vec![
        Json::number(bounds.lon_min),
        Json::number(bounds.lat_min),
        Json::number(bounds.lon_max),
        Json::number(bounds.lat_max),
    ];
    assert(json_views(items@) =~= seq![
        real_view(bounds.lon_min),
        real_view(bounds.lat_min),
        real_view(bounds.lon_max),
        real_view(bounds.lat_max),
    ]);
    Json::list(items)
}

/// A size in pixels, or the size of a tile where it is not known.
pub open spec fn known_size(size: Option<u32>) -> JsonView {
    match size {
        Some(size) => count_view(size as nat),
        None => count_view(TILE_SIZE as nat),
    }
}

fn size_json(size: Option<u32>) -> (json: Json)
    ensures
        json@ == known_size(size),
{
    match size {
        Some(size) => Json::unsigned(size as u64),
        None => Json::unsigned(TILE_SIZE as u64),
    }
}

/// The record of an image.
pub open spec fn tile_document(tile: TileView, geometry: TileGeometry) -> JsonView {
    JsonView::Record(
        seq![
            ("tile_id"@, JsonView::Text(tile.id())),
            ("path"@, JsonView::Text(tile.path)),
            ("bbox"@, bbox_view(geometry.bounds)),
            ("image_width"@, known_size(tile.header.width)),
            ("image_height"@, known_size(tile.header.height)),
            ("root"@, JsonView::Text(tile.root.directory())),
            ("capture_id"@, JsonView::Text(tile.capture)),
            ("role"@, JsonView::Text(tile.root.purpose())),
            ("z"@, count_view(tile.tile.z as nat)),
            ("x"@, count_view(tile.tile.x as nat)),
            ("y"@, count_view(tile.tile.y as nat)),
            ("extension"@, JsonView::Text(tile.extension)),
            (
                "detected_format"@,
                match tile.header.format {
                    Some(format) => JsonView::Text(format.label()),
                    None => JsonView::Null,
                },
            ),
            ("center_lon"@, real_view(geometry.center.lon)),
            ("center_lat"@, real_view(geometry.center.lat)),
            ("pixel_width"@, known_size(tile.header.width)),
            ("pixel_height"@, known_size(tile.header.height)),
            ("bytes"@, count_view(tile.bytes as nat)),
            (
                "valid"@,
                JsonView::Bool(tile.header.width is Some && tile.header.height is Some),
            ),
            ("lon_min"@, real_view(geometry.bounds.lon_min)),
            ("lat_min"@, real_view(geometry.bounds.lat_min)),
            ("lon_max"@, real_view(geometry.bounds.lon_max)),
            ("lat_max"@, real_view(geometry.bounds.lat_max)),
        ],
    )
}

pub(crate) fn tile_json(tile: &TileRecord, geometry: &TileGeometry) -> (json: Json)
    ensures
        json@ == tile_document(tile@, *geometry),
{
    let mut fields: Vec<(String, Json)> = Vec::new();
    assert(field_views(fields@) =~= Seq::<(Seq<char>, JsonView)>::empty());
    let id = tile_id(tile.root, tile.capture_id.as_str(), tile.tile);
    let format = match tile.header.format {
        Some(format) => Json::text(format.name()),
        None => Json::Null,
    };
    let valid = tile.header.width.is_some() && tile.header.height.is_some();
    put(&mut fields, "tile_id", Json::Text(id));
    put(&mut fields, "path", Json::text(tile.path.as_str()));
    put(&mut fields, "bbox", bbox_json(&geometry.bounds));
    put(&mut fields, "image_width", size_json(tile.header.width));
    put(&mut fields, "image_height", size_json(tile.header.height));
    put(&mut fields, "root", Json::text(tile.root.name()));
    put(&mut fields, "capture_id", Json::text(tile.capture_id.as_str()));
    put(&mut fields, "role", Json::text(tile.root.role()));
    put(&mut fields, "z", Json::unsigned(tile.tile.z as u64));
    put(&mut fields, "x", Json::unsigned(tile.tile.x as u64));
    put(&mut fields, "y", Json::unsigned(tile.tile.y as u64));
    put(&mut fields, "extension", Json::text(tile.extension.as_str()));
    put(&mut fields, "detected_format", format);
    put(&mut fields, "center_lon", Json::number(geometry.center.lon));
    put(&mut fields, "center_lat", Json::number(geometry.center.lat));
    put(&mut fields, "pixel_width", size_json(tile.header.width));
    put(&mut fields, "pixel_height", size_json(tile.header.height));
    put(&mut fields, "bytes", Json::unsigned(tile.bytes));
    put(&mut fields, "valid", Json::Bool(valid));
    put(&mut fields, "lon_min", Json::number(geometry.bounds.lon_min));
    put(&mut fields, "lat_min", Json::number(geometry.bounds.lat_min));
    put(&mut fields, "lon_max", Json::number(geometry.bounds.lon_max));
    put(&mut fields, "lat_max", Json::number(geometry.bounds.lat_max));
    assert(field_views(fields@) =~= tile_document(tile@, *geometry)->Record_0);
    Json::record(fields)
}

/// How a mosaic is put together.
pub open spec fn compose_document(patch: PatchView) -> JsonView {
    JsonView::Record(
        seq![
            ("type"@, JsonView::Text("virtual_mosaic"@)),
            ("tile_ids"@, texts_view(patch.sources)),
            ("layout"@, counts_view(seq![patch.size, patch.size])),
        ],
    )
}

fn compose_json(patch: &Patch) -> (json: Json)
    ensures
        json@ == compose_document(patch@),
{
    let mut fields: Vec<(String, Json)> = Vec::new();
    assert(field_views(fields@) =~= Seq::<(Seq<char>, JsonView)>::empty());
    let layout = vec![patch.size, patch.size];
    assert(layout@ =~= seq![patch.size, patch.size]);
    put(&mut fields, "type", Json::text("virtual_mosaic"));
    put(&mut fields, "tile_ids", texts_json(patch.source_tile_ids.as_slice()));
    put(&mut fields, "layout", counts_json(layout.as_slice()));
    assert(field_views(fields@) =~= compose_document(patch@)->Record_0);
    Json::record(fields)
}

/// The record of a mosaic.
pub open spec fn patch_document(
    patch: PatchView,
    geometry: PatchGeometry,
    stride: u32,
) -> JsonView {
    JsonView::Record(
        seq![
            ("patch_id"@, JsonView::Text(patch.id())),
            ("bbox"@, bbox_view(geometry.bounds())),
            ("source_tile_ids"@, texts_view(patch.sources)),
            ("place_id"@, JsonView::Text(place_name(patch.tile.z, patch.tile.x, patch.tile.y))),
            ("root"@, JsonView::Text(patch.root.directory())),
            ("capture_id"@, JsonView::Text(patch.capture)),
            ("role"@, JsonView::Text(patch.root.purpose())),
            ("z"@, count_view(patch.tile.z as nat)),
            ("x"@, count_view(patch.tile.x as nat)),
            ("y"@, count_view(patch.tile.y as nat)),
            ("source_x_min"@, count_view(patch.tile.x as nat)),
            ("source_x_max"@, count_view((patch.tile.x + patch.size - 1) as nat)),
            ("source_y_min"@, count_view(patch.tile.y as nat)),
            ("source_y_max"@, count_view((patch.tile.y + patch.size - 1) as nat)),
            ("source_tiles"@, texts_view(patch.sources)),
            ("pixel_width"@, count_view((TILE_SIZE * patch.size) as nat)),
            ("pixel_height"@, count_view((TILE_SIZE * patch.size) as nat)),
            ("lon_min"@, real_view(geometry.bounds().lon_min)),
            ("lat_min"@, real_view(geometry.bounds().lat_min)),
            ("lon_max"@, real_view(geometry.bounds().lon_max)),
            ("lat_max"@, real_view(geometry.bounds().lat_max)),
            ("center_lon"@, real_view(geometry.center.lon)),
            ("center_lat"@, real_view(geometry.center.lat)),
            ("mosaic_size_tiles"@, count_view(patch.size as nat)),
            ("stride_tiles"@, count_view(stride as nat)),
            ("scale_profile"@, JsonView::Text(scale_name(patch.tile.z, patch.size))),
            ("ground_width_m_estimate"@, real_view(geometry.ground_width_m)),
            ("ground_height_m_estimate"@, real_view(geometry.ground_width_m)),
            ("complete"@, JsonView::Bool(true)),
            ("rotation_safe_circle_diameter_px"@, count_view((TILE_SIZE * patch.size) as nat)),
            ("circular_crop_available"@, JsonView::Bool(true)),
            ("image_written"@, JsonView::Bool(false)),
            ("virtual_compose_spec"@, compose_document(patch)),
            ("image_path_or_virtual_spec"@, compose_document(patch)),
        ],
    )
}

pub(crate) fn patch_json(patch: &Patch, geometry: &PatchGeometry, stride: u32) -> (json: Json)
    requires
        patch.size >= 1,
    ensures
        json@ == patch_document(patch@, *geometry, stride),
{
    let mut fields: Vec<(String, Json)> = Vec::new();
    assert(field_views(fields@) =~= Seq::<(Seq<char>, JsonView)>::empty());
    let bounds = patch_bounds(geometry.first, geometry.last);
    let pixels: u64 = TILE_SIZE as u64 * patch.size as u64;
    put(&mut fields, "patch_id", Json::Text(patch.patch_id()));
    put(&mut fields, "bbox", bbox_json(&bounds));
    put(&mut fields, "source_tile_ids", texts_json(patch.source_tile_ids.as_slice()));
    put(&mut fields, "place_id", Json::Text(place_id(patch.tile.z, patch.tile.x, patch.tile.y)));
    put(&mut fields, "root", Json::text(patch.root.name()));
    put(&mut fields, "capture_id", Json::text(patch.capture_id.as_str()));
    put(&mut fields, "role", Json::text(patch.root.role()));
    put(&mut fields, "z", Json::unsigned(patch.tile.z as u64));
    put(&mut fields, "x", Json::unsigned(patch.tile.x as u64));
    put(&mut fields, "y", Json::unsigned(patch.tile.y as u64));
    put(&mut fields, "source_x_min", Json::unsigned(patch.tile.x as u64));
    put(&mut fields, "source_x_max", Json::unsigned(patch.tile.x as u64 + patch.size as u64 - 1));
    put(&mut fields, "source_y_min", Json::unsigned(patch.tile.y as u64));
    put(&mut fields, "source_y_max", Json::unsigned(patch.tile.y as u64 + patch.size as u64 - 1));
    put(&mut fields, "source_tiles", texts_json(patch.source_tile_ids.as_slice()));
    put(&mut fields, "pixel_width", Json::unsigned(pixels));
    put(&mut fields, "pixel_height", Json::unsigned(pixels));
    put(&mut fields, "lon_min", Json::number(bounds.lon_min));
    put(&mut fields, "lat_min", Json::number(bounds.lat_min));
    put(&mut fields, "lon_max", Json::number(bounds.lon_max));
    put(&mut fields, "lat_max", Json::number(bounds.lat_max));
    put(&mut fields, "center_lon", Json::number(geometry.center.lon));
    put(&mut fields, "center_lat", Json::number(geometry.center.lat));
    put(&mut fields, "mosaic_size_tiles", Json::unsigned(patch.size as u64));
    put(&mut fields, "stride_tiles", Json::unsigned(stride as u64));
    put(&mut fields, "scale_profile", Json::Text(scale_profile(patch.tile.z, patch.size)));
    put(&mut fields, "ground_width_m_estimate", Json::number(geometry.ground_width_m));
    put(&mut fields, "ground_height_m_estimate", Json::number(geometry.ground_width_m));
    put(&mut fields, "complete", Json::Bool(true));
    put(&mut fields, "rotation_safe_circle_diameter_px", Json::unsigned(pixels));
    put(&mut fields, "circular_crop_available", Json::Bool(true));
    put(&mut fields, "image_written", Json::Bool(false));
    put(&mut fields, "virtual_compose_spec", compose_json(patch));
    put(&mut fields, "image_path_or_virtual_spec", compose_json(patch));
    assert(field_views(fields@) =~= patch_document(patch@, *geometry, stride)->Record_0);
    Json::record(fields)
}

/// The record of a mosaic under a rotation.
pub open spec fn variant_document(patch: PatchView, rotation: u32) -> JsonView {
    JsonView::Record(
        seq![
            ("variant_id"@, JsonView::Text(variant_name(patch.id(), rotation))),
            ("patch_id"@, JsonView::Text(patch.id())),
            ("rotation_degrees"@, count_view(rotation as nat)),
            ("crop_shape"@, JsonView::Text("square"@)),
            ("virtual_only"@, JsonView::Bool(true)),
            ("image_written"@, JsonView::Bool(false)),
            ("descriptor_id"@, JsonView::Null),
            ("index_id"@, JsonView::Null),
        ],
    )
}

pub(crate) fn variant_json(patch: &Patch, rotation: u32) -> (json: Json)
    requires
        patch.size >= 1,
    ensures
        json@ == variant_document(patch@, rotation),
{
    let mut fields: Vec<(String, Json)> = Vec::new();
    assert(field_views(fields@) =~= Seq::<(Seq<char>, JsonView)>::empty());
    let id = patch.patch_id();
    put(&mut fields, "variant_id", Json::Text(variant_id(id.as_str(), rotation)));
    put(&mut fields, "patch_id", Json::Text(id));
    put(&mut fields, "rotation_degrees", Json::unsigned(rotation as u64));
    put(&mut fields, "crop_shape", Json::text("square"));
    put(&mut fields, "virtual_only", Json::Bool(true));
    put(&mut fields, "image_written", Json::Bool(false));
    put(&mut fields, "descriptor_id", Json::Null);
    put(&mut fields, "index_id", Json::Null);
    assert(field_views(fields@) =~= variant_document(patch@, rotation)->Record_0);
    Json::record(fields)
}

/// The verdict on a place: its images are kept.
pub open spec fn keep_document() -> JsonView {
    JsonView::Record(seq![("recommendation"@, JsonView::Text("keep"@))])
}

fn keep_json() -> (json: Json)
    ensures
        json@ == keep_document(),
{
    let mut fields: Vec<(String, Json)> = Vec::new();
    assert(field_views(fields@) =~= Seq::<(Seq<char>, JsonView)>::empty());
    put(&mut fields, "recommendation", Json::text("keep"));
    assert(field_views(fields@) =~= keep_document()->Record_0);
    Json::record(fields)
}

/// The names of directories in a document.
pub open spec fn roots_view(roots: Seq<ImageRoot>) -> JsonView {
    JsonView::List(roots.map_values(|root: ImageRoot| JsonView::Text(root.directory())))
}

pub(crate) fn roots_json(roots: &[ImageRoot]) -> (json: Json)
    ensures
        json@ == roots_view(roots@),
{
    let ghost views = roots@.map_values(|root: ImageRoot| JsonView::Text(root.directory()));
    let mut items: Vec<Json> = Vec::new();
    let mut i: usize = 0;
    assert(json_views(items@) =~= views.take(0));
    while i < roots.len()
        invariant
            0 <= i <= roots@.len(),
            views == roots@.map_values(|root: ImageRoot| JsonView::Text(root.directory())),
            json_views(items@) == views.take(i as int),
        decreases roots@.len() - i,
    {
        let ghost before = items@;
        items.push(Json::text(roots[i].name()));
        assert(json_views(items@) =~= json_views(before).push(views[i as int]));
        assert(views.take(i + 1) =~= views.take(i as int).push(views[i as int]));
        i = i + 1;
    }
    assert(views.take(i as int) == views);
    Json::list(items)
}

/// The record of a place; `geometry` is that of its first image.
pub open spec fn place_document(place: PlaceView, geometry: TileGeometry) -> JsonView {
    JsonView::Record(
        seq![
            ("place_id"@, JsonView::Text(place.id())),
            ("tile_ids"@, texts_view(place.tile_ids)),
            ("reference_tile_ids"@, texts_view(place.reference_tile_ids)),
            ("query_tile_ids"@, texts_view(place.query_tile_ids)),
            ("patch_ids"@, texts_view(place.patch_ids)),
            ("z"@, count_view(place.tile.z as nat)),
            ("x"@, count_view(place.tile.x as nat)),
            ("y"@, count_view(place.tile.y as nat)),
            ("center_lon"@, real_view(geometry.center.lon)),
            ("center_lat"@, real_view(geometry.center.lat)),
            ("bbox"@, bbox_view(geometry.bounds)),
            ("available_roots"@, roots_view(place.roots)),
            ("available_captures"@, texts_view(place.captures)),
            ("reference_available"@, JsonView::Bool(place.reference_tile_ids.len() > 0)),
            ("query_available"@, JsonView::Bool(place.query_tile_ids.len() > 0)),
            ("quality_summary"@, keep_document()),
        ],
    )
}

pub(crate) fn place_json(place: &Place, geometry: &TileGeometry) -> (json: Json)
    ensures
        json@ == place_document(place@, *geometry),
{
    let mut fields: Vec<(String, Json)> = Vec::new();
    assert(field_views(fields@) =~= Seq::<(Seq<char>, JsonView)>::empty());
    put(&mut fields, "place_id", Json::Text(place_id(place.tile.z, place.tile.x, place.tile.y)));
    put(&mut fields, "tile_ids", texts_json(place.tile_ids.as_slice()));
    put(&mut fields, "reference_tile_ids", texts_json(place.reference_tile_ids.as_slice()));
    put(&mut fields, "query_tile_ids", texts_json(place.query_tile_ids.as_slice()));
    put(&mut fields, "patch_ids", texts_json(place.patch_ids.as_slice()));
    put(&mut fields, "z", Json::unsigned(place.tile.z as u64));
    put(&mut fields, "x", Json::unsigned(place.tile.x as u64));
    put(&mut fields, "y", Json::unsigned(place.tile.y as u64));
    put(&mut fields, "center_lon", Json::number(geometry.center.lon));
    put(&mut fields, "center_lat", Json::number(geometry.center.lat));
    put(&mut fields, "bbox", bbox_json(&geometry.bounds));
    put(&mut fields, "available_roots", roots_json(place.roots.as_slice()));
    put(&mut fields, "available_captures", texts_json(place.captures.as_slice()));
    put(&mut fields, "reference_available", Json::Bool(place.reference_tile_ids.len() > 0));
    put(&mut fields, "query_available", Json::Bool(place.query_tile_ids.len() > 0));
    put(&mut fields, "quality_summary", keep_json());
    assert(field_views(fields@) =~= place_document(place@, *geometry)->Record_0);
    Json::record(fields)
}

/// The size in bytes below which an image holds next to nothing.
pub const SMALL_FILE: u64 = 128;

/// How blank a file is taken to be, between zero and one.
pub open spec fn blank_score(reject: bool) -> Double {
    Double {
        bits: if reject {
            ONE
        } else {
            ZERO
        },
    }
}

/// What is advised to do with a file.
pub open spec fn advice(reject: bool) -> Seq<char> {
    if reject {
        "reject"@
    } else {
        "keep"@
    }
}

/// Why a file is rejected.
pub open spec fn reasons_to_reject(reject: bool) -> Seq<Seq<char>> {
    if reject {
        seq!["very_small_file"@]
    } else {
        Seq::empty()
    }
}

/// The verdict on an image: a very small file is rejected.
pub open spec fn tile_quality(tile: TileView) -> JsonView {
    JsonView::Record(
        seq![
            ("id"@, JsonView::Text(tile.id())),
            ("type"@, JsonView::Text("tile"@)),
            ("blank_near_blank_score"@, real_view(blank_score(tile.bytes < SMALL_FILE))),
            ("mean_brightness"@, JsonView::Null),
            ("contrast"@, JsonView::Null),
            ("blur_estimate"@, JsonView::Null),
            ("edge_density"@, JsonView::Null),
            ("entropy"@, JsonView::Null),
            ("likely_low_information"@, JsonView::Bool(tile.bytes < SMALL_FILE)),
            ("recommendation"@, JsonView::Text(advice(tile.bytes < SMALL_FILE))),
            ("reject_reasons"@, texts_view(reasons_to_reject(tile.bytes < SMALL_FILE))),
        ],
    )
}

pub(crate) fn tile_quality_json(tile: &TileRecord) -> (json: Json)
    ensures
        json@ == tile_quality(tile@),
{
    let mut fields: Vec<(String, Json)> = Vec::new();
    assert(field_views(fields@) =~= Seq::<(Seq<char>, JsonView)>::empty());
    let id = tile_id(tile.root, tile.capture_id.as_str(), tile.tile);
    let reject = tile.bytes < SMALL_FILE;
    let mut reasons: Vec<String> = Vec::new();
    if reject {
        reasons.push("very_small_file".to_owned());
        assert(texts(reasons@) =~= seq!["very_small_file"@]);
    } else {
        assert(texts(reasons@) =~= Seq::<Seq<char>>::empty());
    }
    put(&mut fields, "id", Json::Text(id));
    put(&mut fields, "type", Json::text("tile"));
    let score = Double {
        bits: if reject {
            ONE
        } else {
            ZERO
        },
    };
    put(&mut fields, "blank_near_blank_score", Json::number(score));
    put(&mut fields, "mean_brightness", Json::Null);
    put(&mut fields, "contrast", Json::Null);
    put(&mut fields, "blur_estimate", Json::Null);
    put(&mut fields, "edge_density", Json::Null);
    put(&mut fields, "entropy", Json::Null);
    put(&mut fields, "likely_low_information", Json::Bool(reject));
    let advised = if reject {
        "reject"
    } else {
        "keep"
    };
    put(&mut fields, "recommendation", Json::text(advised));
    put(&mut fields, "reject_reasons", texts_json(reasons.as_slice()));
    assert(field_views(fields@) =~= tile_quality(tile@)->Record_0);
    Json::record(fields)
}

/// The verdict on a mosaic: it is kept.
pub open spec fn patch_quality(patch: PatchView) -> JsonView {
    JsonView::Record(
        seq![
            ("id"@, JsonView::Text(patch.id())),
            ("type"@, JsonView::Text("patch"@)),
            ("likely_low_information"@, JsonView::Bool(false)),
            ("recommendation"@, JsonView::Text("keep"@)),
            ("reject_reasons"@, texts_view(Seq::empty())),
        ],
    )
}

pub(crate) fn patch_quality_json(patch: &Patch) -> (json: Json)
    requires
        patch.size >= 1,
    ensures
        json@ == patch_quality(patch@),
{
    let mut fields: Vec<(String, Json)> = Vec::new();
    assert(field_views(fields@) =~= Seq::<(Seq<char>, JsonView)>::empty());
    let none: Vec<String> = Vec::new();
    assert(texts(none@) =~= Seq::<Seq<char>>::empty());
    put(&mut fields, "id", Json::Text(patch.patch_id()));
    put(&mut fields, "type", Json::text("patch"));
    put(&mut fields, "likely_low_information", Json::Bool(false));
    put(&mut fields, "recommendation", Json::text("keep"));
    put(&mut fields, "reject_reasons", texts_json(none.as_slice()));
    assert(field_views(fields@) =~= patch_quality(patch@)->Record_0);
    Json::record(fields)
}

} // verus!
