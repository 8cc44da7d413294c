//! What the documents of a prepared dataset say, field by field.
use crate::dataset::{
    DatasetPlan, StampView, config_document, law_variant_count, law_variants_are_pairs,
    patch_documents, place_documents, quality_document, root_pattern, roots_found, tile_documents,
    totals_document, variant_documents, zooms_found,
};
use crate::discover::TileView;
use crate::double::Double;
use crate::ids::{ImageRoot, place_name, scale_name, variant_name};
use crate::image_header::ImageFormat;
use crate::json::{JsonNumber, JsonView, first_field, lemma_field_at};
use crate::manifest::{
    PatchGeometry, TileGeometry, compose_document, counts_view, keep_document, patch_document,
    patch_quality, place_document, roots_view, texts_view, tile_document, tile_quality,
    variant_document,
};
use crate::order::rising;
use crate::patches::PatchView;
use crate::places::PlaceView;
use vstd::prelude::*;

verus! {

/// The record of each image tells, field by field, its name, where it lies in the output directory
/// and on the globe, its size, and what it is for: an image under `tiles` is a reference, one under
/// `drone-view` a query. A size that is not known is that of a tile.
#[verifier::rlimit(60)]
pub proof fn law_tile_records(tiles: Seq<TileView>, geometry: Seq<TileGeometry>, i: int)
    requires
        0 <= i < tiles.len(),
        geometry.len() == tiles.len(),
    ensures
        tile_documents(tiles, geometry).len() == tiles.len(),
        ({
            let tile = tiles[i];
            let place = geometry[i];
            let record = tile_documents(tiles, geometry)[i];
            &&& record.field("tile_id"@) == Some(JsonView::Text(tile.id()))
            &&& record.field("path"@) == Some(JsonView::Text(tile.path))
            &&& record.field("bbox"@) matches Some(JsonView::List(corners))
            &&& corners.len() == 4
            &&& corners[0] == JsonView::Number(JsonNumber::Real(place.bounds.lon_min))
            &&& corners[1] == JsonView::Number(JsonNumber::Real(place.bounds.lat_min))
            &&& corners[2] == JsonView::Number(JsonNumber::Real(place.bounds.lon_max))
            &&& corners[3] == JsonView::Number(JsonNumber::Real(place.bounds.lat_max))
            &&& record.field("image_width"@) == Some(JsonView::Number(JsonNumber::Unsigned((match tile.header.width {
                Some(size) => size as u64,
                None => 256,
            }))))
            &&& record.field("image_height"@) == Some(JsonView::Number(JsonNumber::Unsigned((match tile.header.height {
                Some(size) => size as u64,
                None => 256,
            }))))
            &&& record.field("root"@) == Some(JsonView::Text((match tile.root {
                ImageRoot::Tiles => "tiles"@,
                ImageRoot::DroneView => "drone-view"@,
            })))
            &&& record.field("capture_id"@) == Some(JsonView::Text(tile.capture))
            &&& record.field("role"@) == Some(JsonView::Text((match tile.root {
                ImageRoot::Tiles => "reference"@,
                ImageRoot::DroneView => "query"@,
            })))
            &&& record.field("z"@) == Some(
                JsonView::Number(JsonNumber::Unsigned(tile.tile.z as u64)),
            )
            &&& record.field("x"@) == Some(
                JsonView::Number(JsonNumber::Unsigned(tile.tile.x as u64)),
            )
            &&& record.field("y"@) == Some(
                JsonView::Number(JsonNumber::Unsigned(tile.tile.y as u64)),
            )
            &&& record.field("extension"@) == Some(JsonView::Text(tile.extension))
            &&& record.field("detected_format"@) == Some((match tile.header.format {
                Some(ImageFormat::Png) => JsonView::Text("png"@),
                Some(ImageFormat::Webp) => JsonView::Text("webp"@),
                Some(ImageFormat::Jpeg) => JsonView::Text("jpeg"@),
                None => JsonView::Null,
            }))
            &&& record.field("center_lon"@) == Some(
                JsonView::Number(JsonNumber::Real(place.center.lon)),
            )
            &&& record.field("center_lat"@) == Some(
                JsonView::Number(JsonNumber::Real(place.center.lat)),
            )
            &&& record.field("pixel_width"@) == Some(JsonView::Number(JsonNumber::Unsigned((match tile.header.width {
                Some(size) => size as u64,
                None => 256,
            }))))
            &&& record.field("pixel_height"@) == Some(JsonView::Number(JsonNumber::Unsigned((match tile.header.height {
                Some(size) => size as u64,
                None => 256,
            }))))
            &&& record.field("bytes"@) == Some(JsonView::Number(JsonNumber::Unsigned(tile.bytes)))
            &&& record.field("valid"@) == Some(
                JsonView::Bool(tile.header.width is Some && tile.header.height is Some),
            )
            &&& record.field("lon_min"@) == Some(
                JsonView::Number(JsonNumber::Real(place.bounds.lon_min)),
            )
            &&& record.field("lat_min"@) == Some(
                JsonView::Number(JsonNumber::Real(place.bounds.lat_min)),
            )
            &&& record.field("lon_max"@) == Some(
                JsonView::Number(JsonNumber::Real(place.bounds.lon_max)),
            )
            &&& record.field("lat_max"@) == Some(
                JsonView::Number(JsonNumber::Real(place.bounds.lat_max)),
            )
        }),
{
    let tile = tiles[i];
    let place = geometry[i];
    reveal_strlit("tile_id");
    reveal_strlit("path");
    reveal_strlit("bbox");
    reveal_strlit("image_width");
    reveal_strlit("image_height");
    reveal_strlit("root");
    reveal_strlit("capture_id");
    reveal_strlit("role");
    reveal_strlit("z");
    reveal_strlit("x");
    reveal_strlit("y");
    reveal_strlit("extension");
    reveal_strlit("detected_format");
    reveal_strlit("center_lon");
    reveal_strlit("center_lat");
    reveal_strlit("pixel_width");
    reveal_strlit("pixel_height");
    reveal_strlit("bytes");
    reveal_strlit("valid");
    reveal_strlit("lon_min");
    reveal_strlit("lat_min");
    reveal_strlit("lon_max");
    reveal_strlit("lat_max");
    assert("tile_id"@.len() == 7);
    assert("path"@.len() == 4);
    assert("bbox"@.len() == 4);
    assert("image_width"@.len() == 11);
    assert("image_height"@.len() == 12);
    assert("root"@.len() == 4);
    assert("capture_id"@.len() == 10);
    assert("role"@.len() == 4);
    assert("z"@.len() == 1);
    assert("x"@.len() == 1);
    assert("y"@.len() == 1);
    assert("extension"@.len() == 9);
    assert("detected_format"@.len() == 15);
    assert("center_lon"@.len() == 10);
    assert("center_lat"@.len() == 10);
    assert("pixel_width"@.len() == 11);
    assert("pixel_height"@.len() == 12);
    assert("bytes"@.len() == 5);
    assert("valid"@.len() == 5);
    assert("lon_min"@.len() == 7);
    assert("lat_min"@.len() == 7);
    assert("lon_max"@.len() == 7);
    assert("lat_max"@.len() == 7);
    assert("z"@[0] == 'z');
    assert("x"@[0] == 'x');
    assert("y"@[0] == 'y');
    assert("path"@[3] == 'h');
    assert("bbox"@[3] == 'x');
    assert("root"@[3] == 't');
    assert("role"@[3] == 'e');
    assert("bytes"@[0] == 'b');
    assert("valid"@[0] == 'v');
    assert("tile_id"@[1] == 'i');
    assert("tile_id"@[5] == 'i');
    assert("lon_min"@[1] == 'o');
    assert("lon_min"@[5] == 'i');
    assert("lat_min"@[1] == 'a');
    assert("lat_min"@[5] == 'i');
    assert("lon_max"@[1] == 'o');
    assert("lon_max"@[5] == 'a');
    assert("lat_max"@[1] == 'a');
    assert("lat_max"@[5] == 'a');
    assert("capture_id"@[8] == 'i');
    assert("center_lon"@[8] == 'o');
    assert("center_lat"@[8] == 'a');
    assert("image_width"@[0] == 'i');
    assert("pixel_width"@[0] == 'p');
    assert("image_height"@[0] == 'i');
    assert("pixel_height"@[0] == 'p');
    let fields = tile_document(tile, place)->Record_0;
    assert(first_field(fields, fields[0].0, 0));
    lemma_field_at(fields, 0);
    assert(first_field(fields, fields[1].0, 1));
    lemma_field_at(fields, 1);
    assert(first_field(fields, fields[2].0, 2));
    lemma_field_at(fields, 2);
    assert(first_field(fields, fields[3].0, 3));
    lemma_field_at(fields, 3);
    assert(first_field(fields, fields[4].0, 4));
    lemma_field_at(fields, 4);
    assert(first_field(fields, fields[5].0, 5));
    lemma_field_at(fields, 5);
    assert(first_field(fields, fields[6].0, 6));
    lemma_field_at(fields, 6);
    assert(first_field(fields, fields[7].0, 7));
    lemma_field_at(fields, 7);
    assert(first_field(fields, fields[8].0, 8));
    lemma_field_at(fields, 8);
    assert(first_field(fields, fields[9].0, 9));
    lemma_field_at(fields, 9);
    assert(first_field(fields, fields[10].0, 10));
    lemma_field_at(fields, 10);
    assert(first_field(fields, fields[11].0, 11));
    lemma_field_at(fields, 11);
    assert(first_field(fields, fields[12].0, 12));
    lemma_field_at(fields, 12);
    assert(first_field(fields, fields[13].0, 13));
    lemma_field_at(fields, 13);
    assert(first_field(fields, fields[14].0, 14));
    lemma_field_at(fields, 14);
    assert(first_field(fields, fields[15].0, 15));
    lemma_field_at(fields, 15);
    assert(first_field(fields, fields[16].0, 16));
    lemma_field_at(fields, 16);
    assert(first_field(fields, fields[17].0, 17));
    lemma_field_at(fields, 17);
    assert(first_field(fields, fields[18].0, 18));
    lemma_field_at(fields, 18);
    assert(first_field(fields, fields[19].0, 19));
    lemma_field_at(fields, 19);
    assert(first_field(fields, fields[20].0, 20));
    lemma_field_at(fields, 20);
    assert(first_field(fields, fields[21].0, 21));
    lemma_field_at(fields, 21);
    assert(first_field(fields, fields[22].0, 22));
    lemma_field_at(fields, 22);
}

/// The record of each mosaic tells its name and its place, what it is for, where it lies, the tiles
/// that it is made of, its corners among them and its size in pixels. Its west and north are those
/// of the tile in its top left corner, its east and south those of the tile in its bottom right
/// corner.
#[verifier::rlimit(60)]
pub proof fn law_patch_records(
    patches: Seq<PatchView>,
    geometry: Seq<PatchGeometry>,
    stride: u32,
    i: int,
)
    requires
        0 <= i < patches.len(),
        geometry.len() == patches.len(),
        patches[i].size >= 1,
    ensures
        patch_documents(patches, geometry, stride).len() == patches.len(),
        ({
            let patch = patches[i];
            let place = geometry[i];
            let record = patch_documents(patches, geometry, stride)[i];
            &&& record.field("patch_id"@) == Some(JsonView::Text(patch.id()))
            &&& record.field("bbox"@) matches Some(JsonView::List(corners))
            &&& corners.len() == 4
            &&& corners[0] == JsonView::Number(JsonNumber::Real(place.first.lon_min))
            &&& corners[1] == JsonView::Number(JsonNumber::Real(place.last.lat_min))
            &&& corners[2] == JsonView::Number(JsonNumber::Real(place.last.lon_max))
            &&& corners[3] == JsonView::Number(JsonNumber::Real(place.first.lat_max))
            &&& record.field("source_tile_ids"@) == Some(texts_view(patch.sources))
            &&& record.field("place_id"@) == Some(
                JsonView::Text(place_name(patch.tile.z, patch.tile.x, patch.tile.y)),
            )
            &&& record.field("root"@) == Some(JsonView::Text((match patch.root {
                ImageRoot::Tiles => "tiles"@,
                ImageRoot::DroneView => "drone-view"@,
            })))
            &&& record.field("capture_id"@) == Some(JsonView::Text(patch.capture))
            &&& record.field("role"@) == Some(JsonView::Text((match patch.root {
                ImageRoot::Tiles => "reference"@,
                ImageRoot::DroneView => "query"@,
            })))
            &&& record.field("z"@) == Some(
                JsonView::Number(JsonNumber::Unsigned(patch.tile.z as u64)),
            )
            &&& record.field("x"@) == Some(
                JsonView::Number(JsonNumber::Unsigned(patch.tile.x as u64)),
            )
            &&& record.field("y"@) == Some(
                JsonView::Number(JsonNumber::Unsigned(patch.tile.y as u64)),
            )
            &&& record.field("source_x_min"@) == Some(
                JsonView::Number(JsonNumber::Unsigned(patch.tile.x as u64)),
            )
            &&& record.field("source_x_max"@) == Some(
                JsonView::Number(JsonNumber::Unsigned((patch.tile.x + patch.size - 1) as u64)),
            )
            &&& record.field("source_y_min"@) == Some(
                JsonView::Number(JsonNumber::Unsigned(patch.tile.y as u64)),
            )
            &&& record.field("source_y_max"@) == Some(
                JsonView::Number(JsonNumber::Unsigned((patch.tile.y + patch.size - 1) as u64)),
            )
            &&& record.field("source_tiles"@) == Some(texts_view(patch.sources))
            &&& record.field("pixel_width"@) == Some(
                JsonView::Number(JsonNumber::Unsigned((256 * patch.size) as u64)),
            )
            &&& record.field("pixel_height"@) == Some(
                JsonView::Number(JsonNumber::Unsigned((256 * patch.size) as u64)),
            )
        }),
{
    let patch = patches[i];
    let place = geometry[i];
    reveal_strlit("patch_id");
    reveal_strlit("bbox");
    reveal_strlit("source_tile_ids");
    reveal_strlit("place_id");
    reveal_strlit("root");
    reveal_strlit("capture_id");
    reveal_strlit("role");
    reveal_strlit("z");
    reveal_strlit("x");
    reveal_strlit("y");
    reveal_strlit("source_x_min");
    reveal_strlit("source_x_max");
    reveal_strlit("source_y_min");
    reveal_strlit("source_y_max");
    reveal_strlit("source_tiles");
    reveal_strlit("pixel_width");
    reveal_strlit("pixel_height");
    assert("patch_id"@.len() == 8);
    assert("bbox"@.len() == 4);
    assert("source_tile_ids"@.len() == 15);
    assert("place_id"@.len() == 8);
    assert("root"@.len() == 4);
    assert("capture_id"@.len() == 10);
    assert("role"@.len() == 4);
    assert("z"@.len() == 1);
    assert("x"@.len() == 1);
    assert("y"@.len() == 1);
    assert("source_x_min"@.len() == 12);
    assert("source_x_max"@.len() == 12);
    assert("source_y_min"@.len() == 12);
    assert("source_y_max"@.len() == 12);
    assert("source_tiles"@.len() == 12);
    assert("pixel_width"@.len() == 11);
    assert("pixel_height"@.len() == 12);
    assert("z"@[0] == 'z');
    assert("x"@[0] == 'x');
    assert("y"@[0] == 'y');
    assert("bbox"@[3] == 'x');
    assert("root"@[3] == 't');
    assert("role"@[3] == 'e');
    assert("patch_id"@[1] == 'a');
    assert("place_id"@[1] == 'l');
    assert("source_x_min"@[7] == 'x');
    assert("source_x_min"@[10] == 'i');
    assert("source_x_max"@[7] == 'x');
    assert("source_x_max"@[10] == 'a');
    assert("source_y_min"@[7] == 'y');
    assert("source_y_min"@[10] == 'i');
    assert("source_y_max"@[7] == 'y');
    assert("source_y_max"@[10] == 'a');
    assert("source_tiles"@[7] == 't');
    assert("source_tiles"@[10] == 'e');
    assert("pixel_height"@[7] == 'e');
    assert("pixel_height"@[10] == 'h');
    let fields = patch_document(patch, place, stride)->Record_0;
    assert(first_field(fields, fields[0].0, 0));
    lemma_field_at(fields, 0);
    assert(first_field(fields, fields[1].0, 1));
    lemma_field_at(fields, 1);
    assert(first_field(fields, fields[2].0, 2));
    lemma_field_at(fields, 2);
    assert(first_field(fields, fields[3].0, 3));
    lemma_field_at(fields, 3);
    assert(first_field(fields, fields[4].0, 4));
    lemma_field_at(fields, 4);
    assert(first_field(fields, fields[5].0, 5));
    lemma_field_at(fields, 5);
    assert(first_field(fields, fields[6].0, 6));
    lemma_field_at(fields, 6);
    assert(first_field(fields, fields[7].0, 7));
    lemma_field_at(fields, 7);
    assert(first_field(fields, fields[8].0, 8));
    lemma_field_at(fields, 8);
    assert(first_field(fields, fields[9].0, 9));
    lemma_field_at(fields, 9);
    assert(first_field(fields, fields[10].0, 10));
    lemma_field_at(fields, 10);
    assert(first_field(fields, fields[11].0, 11));
    lemma_field_at(fields, 11);
    assert(first_field(fields, fields[12].0, 12));
    lemma_field_at(fields, 12);
    assert(first_field(fields, fields[13].0, 13));
    lemma_field_at(fields, 13);
    assert(first_field(fields, fields[14].0, 14));
    lemma_field_at(fields, 14);
    assert(first_field(fields, fields[15].0, 15));
    lemma_field_at(fields, 15);
    assert(first_field(fields, fields[16].0, 16));
    lemma_field_at(fields, 16);
}

/// The record of each mosaic also tells its bounds one by one, its middle, its size in tiles, the
/// stride, the width of the ground and how it is put together. It is complete, and no image of it is
/// written.
#[verifier::rlimit(60)]
pub proof fn law_patch_record_details(
    patches: Seq<PatchView>,
    geometry: Seq<PatchGeometry>,
    stride: u32,
    i: int,
)
    requires
        0 <= i < patches.len(),
        geometry.len() == patches.len(),
        patches[i].size >= 1,
    ensures
        patch_documents(patches, geometry, stride).len() == patches.len(),
        ({
            let patch = patches[i];
            let place = geometry[i];
            let record = patch_documents(patches, geometry, stride)[i];
            &&& record.field("lon_min"@) == Some(
                JsonView::Number(JsonNumber::Real(place.first.lon_min)),
            )
            &&& record.field("lat_min"@) == Some(
                JsonView::Number(JsonNumber::Real(place.last.lat_min)),
            )
            &&& record.field("lon_max"@) == Some(
                JsonView::Number(JsonNumber::Real(place.last.lon_max)),
            )
            &&& record.field("lat_max"@) == Some(
                JsonView::Number(JsonNumber::Real(place.first.lat_max)),
            )
            &&& record.field("center_lon"@) == Some(
                JsonView::Number(JsonNumber::Real(place.center.lon)),
            )
            &&& record.field("center_lat"@) == Some(
                JsonView::Number(JsonNumber::Real(place.center.lat)),
            )
            &&& record.field("mosaic_size_tiles"@) == Some(
                JsonView::Number(JsonNumber::Unsigned(patch.size as u64)),
            )
            &&& record.field("stride_tiles"@) == Some(
                JsonView::Number(JsonNumber::Unsigned(stride as u64)),
            )
            &&& record.field("scale_profile"@) == Some(
                JsonView::Text(scale_name(patch.tile.z, patch.size)),
            )
            &&& record.field("ground_width_m_estimate"@) == Some(
                JsonView::Number(JsonNumber::Real(place.ground_width_m)),
            )
            &&& record.field("ground_height_m_estimate"@) == Some(
                JsonView::Number(JsonNumber::Real(place.ground_width_m)),
            )
            &&& record.field("complete"@) == Some(JsonView::Bool(true))
            &&& record.field("rotation_safe_circle_diameter_px"@) == Some(
                JsonView::Number(JsonNumber::Unsigned((256 * patch.size) as u64)),
            )
            &&& record.field("circular_crop_available"@) == Some(JsonView::Bool(true))
            &&& record.field("image_written"@) == Some(JsonView::Bool(false))
            &&& record.field("virtual_compose_spec"@) == Some(compose_document(patch))
            &&& record.field("image_path_or_virtual_spec"@) == Some(compose_document(patch))
        }),
{
    let patch = patches[i];
    let place = geometry[i];
    reveal_strlit("patch_id");
    reveal_strlit("bbox");
    reveal_strlit("source_tile_ids");
    reveal_strlit("place_id");
    reveal_strlit("root");
    reveal_strlit("capture_id");
    reveal_strlit("role");
    reveal_strlit("z");
    reveal_strlit("x");
    reveal_strlit("y");
    reveal_strlit("source_x_min");
    reveal_strlit("source_x_max");
    reveal_strlit("source_y_min");
    reveal_strlit("source_y_max");
    reveal_strlit("source_tiles");
    reveal_strlit("pixel_width");
    reveal_strlit("pixel_height");
    reveal_strlit("lon_min");
    reveal_strlit("lat_min");
    reveal_strlit("lon_max");
    reveal_strlit("lat_max");
    reveal_strlit("center_lon");
    reveal_strlit("center_lat");
    reveal_strlit("mosaic_size_tiles");
    reveal_strlit("stride_tiles");
    reveal_strlit("scale_profile");
    reveal_strlit("ground_width_m_estimate");
    reveal_strlit("ground_height_m_estimate");
    reveal_strlit("complete");
    reveal_strlit("rotation_safe_circle_diameter_px");
    reveal_strlit("circular_crop_available");
    reveal_strlit("image_written");
    reveal_strlit("virtual_compose_spec");
    reveal_strlit("image_path_or_virtual_spec");
    assert("patch_id"@.len() == 8);
    assert("bbox"@.len() == 4);
    assert("source_tile_ids"@.len() == 15);
    assert("place_id"@.len() == 8);
    assert("root"@.len() == 4);
    assert("capture_id"@.len() == 10);
    assert("role"@.len() == 4);
    assert("z"@.len() == 1);
    assert("x"@.len() == 1);
    assert("y"@.len() == 1);
    assert("source_x_min"@.len() == 12);
    assert("source_x_max"@.len() == 12);
    assert("source_y_min"@.len() == 12);
    assert("source_y_max"@.len() == 12);
    assert("source_tiles"@.len() == 12);
    assert("pixel_width"@.len() == 11);
    assert("pixel_height"@.len() == 12);
    assert("lon_min"@.len() == 7);
    assert("lat_min"@.len() == 7);
    assert("lon_max"@.len() == 7);
    assert("lat_max"@.len() == 7);
    assert("center_lon"@.len() == 10);
    assert("center_lat"@.len() == 10);
    assert("mosaic_size_tiles"@.len() == 17);
    assert("stride_tiles"@.len() == 12);
    assert("scale_profile"@.len() == 13);
    assert("ground_width_m_estimate"@.len() == 23);
    assert("ground_height_m_estimate"@.len() == 24);
    assert("complete"@.len() == 8);
    assert("rotation_safe_circle_diameter_px"@.len() == 32);
    assert("circular_crop_available"@.len() == 23);
    assert("image_written"@.len() == 13);
    assert("virtual_compose_spec"@.len() == 20);
    assert("image_path_or_virtual_spec"@.len() == 26);
    assert("z"@[0] == 'z');
    assert("x"@[0] == 'x');
    assert("y"@[0] == 'y');
    assert("bbox"@[3] == 'x');
    assert("root"@[3] == 't');
    assert("role"@[3] == 'e');
    assert("lon_min"@[1] == 'o');
    assert("lon_min"@[5] == 'i');
    assert("lat_min"@[1] == 'a');
    assert("lat_min"@[5] == 'i');
    assert("lon_max"@[1] == 'o');
    assert("lon_max"@[5] == 'a');
    assert("lat_max"@[1] == 'a');
    assert("lat_max"@[5] == 'a');
    assert("patch_id"@[1] == 'a');
    assert("place_id"@[1] == 'l');
    assert("complete"@[1] == 'o');
    assert("capture_id"@[8] == 'i');
    assert("center_lon"@[8] == 'o');
    assert("center_lat"@[8] == 'a');
    assert("source_x_min"@[7] == 'x');
    assert("source_x_min"@[10] == 'i');
    assert("source_x_min"@[1] == 'o');
    assert("source_x_max"@[7] == 'x');
    assert("source_x_max"@[10] == 'a');
    assert("source_x_max"@[1] == 'o');
    assert("source_y_min"@[7] == 'y');
    assert("source_y_min"@[10] == 'i');
    assert("source_y_min"@[1] == 'o');
    assert("source_y_max"@[7] == 'y');
    assert("source_y_max"@[10] == 'a');
    assert("source_y_max"@[1] == 'o');
    assert("source_tiles"@[7] == 't');
    assert("source_tiles"@[10] == 'e');
    assert("source_tiles"@[1] == 'o');
    assert("pixel_height"@[7] == 'e');
    assert("pixel_height"@[10] == 'h');
    assert("pixel_height"@[1] == 'i');
    assert("stride_tiles"@[7] == 't');
    assert("stride_tiles"@[10] == 'e');
    assert("stride_tiles"@[1] == 't');
    assert("scale_profile"@[0] == 's');
    assert("image_written"@[0] == 'i');
    assert("ground_width_m_estimate"@[0] == 'g');
    assert("circular_crop_available"@[0] == 'c');
    let fields = patch_document(patch, place, stride)->Record_0;
    assert(first_field(fields, fields[17].0, 17));
    lemma_field_at(fields, 17);
    assert(first_field(fields, fields[18].0, 18));
    lemma_field_at(fields, 18);
    assert(first_field(fields, fields[19].0, 19));
    lemma_field_at(fields, 19);
    assert(first_field(fields, fields[20].0, 20));
    lemma_field_at(fields, 20);
    assert(first_field(fields, fields[21].0, 21));
    lemma_field_at(fields, 21);
    assert(first_field(fields, fields[22].0, 22));
    lemma_field_at(fields, 22);
    assert(first_field(fields, fields[23].0, 23));
    lemma_field_at(fields, 23);
    assert(first_field(fields, fields[24].0, 24));
    lemma_field_at(fields, 24);
    assert(first_field(fields, fields[25].0, 25));
    lemma_field_at(fields, 25);
    assert(first_field(fields, fields[26].0, 26));
    lemma_field_at(fields, 26);
    assert(first_field(fields, fields[27].0, 27));
    lemma_field_at(fields, 27);
    assert(first_field(fields, fields[28].0, 28));
    lemma_field_at(fields, 28);
    assert(first_field(fields, fields[29].0, 29));
    lemma_field_at(fields, 29);
    assert(first_field(fields, fields[30].0, 30));
    lemma_field_at(fields, 30);
    assert(first_field(fields, fields[31].0, 31));
    lemma_field_at(fields, 31);
    assert(first_field(fields, fields[32].0, 32));
    lemma_field_at(fields, 32);
    assert(first_field(fields, fields[33].0, 33));
    lemma_field_at(fields, 33);
}

/// A mosaic is put together of its tiles, as many in a row as rows.
pub proof fn law_composition(patch: PatchView)
    ensures
        ({
            let record = compose_document(patch);
            &&& record.field("type"@) == Some(JsonView::Text("virtual_mosaic"@))
            &&& record.field("tile_ids"@) == Some(texts_view(patch.sources))
            &&& record.field("layout"@) == Some(counts_view(seq![patch.size, patch.size]))
        }),
{
    reveal_strlit("type");
    reveal_strlit("tile_ids");
    reveal_strlit("layout");
    assert("type"@.len() == 4);
    assert("tile_ids"@.len() == 8);
    assert("layout"@.len() == 6);
    let fields = compose_document(patch)->Record_0;
    assert(first_field(fields, fields[0].0, 0));
    lemma_field_at(fields, 0);
    assert(first_field(fields, fields[1].0, 1));
    lemma_field_at(fields, 1);
    assert(first_field(fields, fields[2].0, 2));
    lemma_field_at(fields, 2);
}

/// The record of a mosaic under a rotation tells the mosaic and the rotation that was asked for.
pub proof fn law_variant_record(patch: PatchView, rotation: u32)
    ensures
        ({
            let record = variant_document(patch, rotation);
            &&& record.field("variant_id"@) == Some(
                JsonView::Text(variant_name(patch.id(), rotation)),
            )
            &&& record.field("patch_id"@) == Some(JsonView::Text(patch.id()))
            &&& record.field("rotation_degrees"@) == Some(
                JsonView::Number(JsonNumber::Unsigned(rotation as u64)),
            )
            &&& record.field("crop_shape"@) == Some(JsonView::Text("square"@))
            &&& record.field("virtual_only"@) == Some(JsonView::Bool(true))
            &&& record.field("image_written"@) == Some(JsonView::Bool(false))
            &&& record.field("descriptor_id"@) == Some(JsonView::Null)
            &&& record.field("index_id"@) == Some(JsonView::Null)
        }),
{
    reveal_strlit("variant_id");
    reveal_strlit("patch_id");
    reveal_strlit("rotation_degrees");
    reveal_strlit("crop_shape");
    reveal_strlit("virtual_only");
    reveal_strlit("image_written");
    reveal_strlit("descriptor_id");
    reveal_strlit("index_id");
    assert("variant_id"@.len() == 10);
    assert("patch_id"@.len() == 8);
    assert("rotation_degrees"@.len() == 16);
    assert("crop_shape"@.len() == 10);
    assert("virtual_only"@.len() == 12);
    assert("image_written"@.len() == 13);
    assert("descriptor_id"@.len() == 13);
    assert("index_id"@.len() == 8);
    assert("patch_id"@[0] == 'p');
    assert("index_id"@[0] == 'i');
    assert("variant_id"@[0] == 'v');
    assert("crop_shape"@[0] == 'c');
    assert("image_written"@[0] == 'i');
    assert("descriptor_id"@[0] == 'd');
    let fields = variant_document(patch, rotation)->Record_0;
    assert(first_field(fields, fields[0].0, 0));
    lemma_field_at(fields, 0);
    assert(first_field(fields, fields[1].0, 1));
    lemma_field_at(fields, 1);
    assert(first_field(fields, fields[2].0, 2));
    lemma_field_at(fields, 2);
    assert(first_field(fields, fields[3].0, 3));
    lemma_field_at(fields, 3);
    assert(first_field(fields, fields[4].0, 4));
    lemma_field_at(fields, 4);
    assert(first_field(fields, fields[5].0, 5));
    lemma_field_at(fields, 5);
    assert(first_field(fields, fields[6].0, 6));
    lemma_field_at(fields, 6);
    assert(first_field(fields, fields[7].0, 7));
    lemma_field_at(fields, 7);
}

/// The record of each place tells its tile, where its first image lies, and what there is of it. It
/// has reference imagery exactly where one of its images is a reference, and query imagery where one
/// is a query.
#[verifier::rlimit(60)]
pub proof fn law_place_records(places: Seq<PlaceView>, geometry: Seq<TileGeometry>, i: int)
    requires
        0 <= i < places.len(),
        0 <= places[i].first < geometry.len(),
    ensures
        place_documents(places, geometry).len() == places.len(),
        ({
            let place = places[i];
            let first = geometry[places[i].first];
            let record = place_documents(places, geometry)[i];
            &&& record.field("place_id"@) == Some(
                JsonView::Text(place_name(place.tile.z, place.tile.x, place.tile.y)),
            )
            &&& record.field("tile_ids"@) == Some(texts_view(place.tile_ids))
            &&& record.field("reference_tile_ids"@) == Some(texts_view(place.reference_tile_ids))
            &&& record.field("query_tile_ids"@) == Some(texts_view(place.query_tile_ids))
            &&& record.field("patch_ids"@) == Some(texts_view(place.patch_ids))
            &&& record.field("z"@) == Some(
                JsonView::Number(JsonNumber::Unsigned(place.tile.z as u64)),
            )
            &&& record.field("x"@) == Some(
                JsonView::Number(JsonNumber::Unsigned(place.tile.x as u64)),
            )
            &&& record.field("y"@) == Some(
                JsonView::Number(JsonNumber::Unsigned(place.tile.y as u64)),
            )
            &&& record.field("center_lon"@) == Some(
                JsonView::Number(JsonNumber::Real(first.center.lon)),
            )
            &&& record.field("center_lat"@) == Some(
                JsonView::Number(JsonNumber::Real(first.center.lat)),
            )
            &&& record.field("bbox"@) matches Some(JsonView::List(corners))
            &&& corners.len() == 4
            &&& corners[0] == JsonView::Number(JsonNumber::Real(first.bounds.lon_min))
            &&& corners[1] == JsonView::Number(JsonNumber::Real(first.bounds.lat_min))
            &&& corners[2] == JsonView::Number(JsonNumber::Real(first.bounds.lon_max))
            &&& corners[3] == JsonView::Number(JsonNumber::Real(first.bounds.lat_max))
            &&& record.field("available_roots"@) == Some(roots_view(place.roots))
            &&& record.field("available_captures"@) == Some(texts_view(place.captures))
            &&& record.field("reference_available"@) == Some(
                JsonView::Bool(place.reference_tile_ids.len() > 0),
            )
            &&& record.field("query_available"@) == Some(
                JsonView::Bool(place.query_tile_ids.len() > 0),
            )
            &&& record.field("quality_summary"@) == Some(keep_document())
        }),
{
    let place = places[i];
    let first = geometry[places[i].first];
    reveal_strlit("place_id");
    reveal_strlit("tile_ids");
    reveal_strlit("reference_tile_ids");
    reveal_strlit("query_tile_ids");
    reveal_strlit("patch_ids");
    reveal_strlit("z");
    reveal_strlit("x");
    reveal_strlit("y");
    reveal_strlit("center_lon");
    reveal_strlit("center_lat");
    reveal_strlit("bbox");
    reveal_strlit("available_roots");
    reveal_strlit("available_captures");
    reveal_strlit("reference_available");
    reveal_strlit("query_available");
    reveal_strlit("quality_summary");
    assert("place_id"@.len() == 8);
    assert("tile_ids"@.len() == 8);
    assert("reference_tile_ids"@.len() == 18);
    assert("query_tile_ids"@.len() == 14);
    assert("patch_ids"@.len() == 9);
    assert("z"@.len() == 1);
    assert("x"@.len() == 1);
    assert("y"@.len() == 1);
    assert("center_lon"@.len() == 10);
    assert("center_lat"@.len() == 10);
    assert("bbox"@.len() == 4);
    assert("available_roots"@.len() == 15);
    assert("available_captures"@.len() == 18);
    assert("reference_available"@.len() == 19);
    assert("query_available"@.len() == 15);
    assert("quality_summary"@.len() == 15);
    assert("z"@[0] == 'z');
    assert("x"@[0] == 'x');
    assert("y"@[0] == 'y');
    assert("place_id"@[0] == 'p');
    assert("tile_ids"@[0] == 't');
    assert("center_lon"@[8] == 'o');
    assert("center_lat"@[8] == 'a');
    assert("available_roots"@[3] == 'i');
    assert("query_available"@[3] == 'r');
    assert("quality_summary"@[3] == 'l');
    assert("reference_tile_ids"@[0] == 'r');
    assert("available_captures"@[0] == 'a');
    let fields = place_document(place, first)->Record_0;
    assert(first_field(fields, fields[0].0, 0));
    lemma_field_at(fields, 0);
    assert(first_field(fields, fields[1].0, 1));
    lemma_field_at(fields, 1);
    assert(first_field(fields, fields[2].0, 2));
    lemma_field_at(fields, 2);
    assert(first_field(fields, fields[3].0, 3));
    lemma_field_at(fields, 3);
    assert(first_field(fields, fields[4].0, 4));
    lemma_field_at(fields, 4);
    assert(first_field(fields, fields[5].0, 5));
    lemma_field_at(fields, 5);
    assert(first_field(fields, fields[6].0, 6));
    lemma_field_at(fields, 6);
    assert(first_field(fields, fields[7].0, 7));
    lemma_field_at(fields, 7);
    assert(first_field(fields, fields[8].0, 8));
    lemma_field_at(fields, 8);
    assert(first_field(fields, fields[9].0, 9));
    lemma_field_at(fields, 9);
    assert(first_field(fields, fields[10].0, 10));
    lemma_field_at(fields, 10);
    assert(first_field(fields, fields[11].0, 11));
    lemma_field_at(fields, 11);
    assert(first_field(fields, fields[12].0, 12));
    lemma_field_at(fields, 12);
    assert(first_field(fields, fields[13].0, 13));
    lemma_field_at(fields, 13);
    assert(first_field(fields, fields[14].0, 14));
    lemma_field_at(fields, 14);
    assert(first_field(fields, fields[15].0, 15));
    lemma_field_at(fields, 15);
}

/// Every place is kept.
pub proof fn law_kept_places()
    ensures
        ({
            let record = keep_document();
            &&& record.field("recommendation"@) == Some(JsonView::Text("keep"@))
        }),
{
    reveal_strlit("recommendation");
    assert("recommendation"@.len() == 14);
    let fields = keep_document()->Record_0;
    assert(first_field(fields, fields[0].0, 0));
    lemma_field_at(fields, 0);
}

/// An image of fewer than 128 bytes is rejected as very small and taken to be blank; every other one
/// is kept.
pub proof fn law_tile_verdict(tile: TileView)
    ensures
        ({
            let record = tile_quality(tile);
            &&& record.field("id"@) == Some(JsonView::Text(tile.id()))
            &&& record.field("type"@) == Some(JsonView::Text("tile"@))
            &&& record.field("blank_near_blank_score"@) == Some(JsonView::Number(JsonNumber::Real(Double {
                bits: if tile.bytes < 128 {
                    0x3ff0_0000_0000_0000u64
                } else {
                    0u64
                },
            })))
            &&& record.field("mean_brightness"@) == Some(JsonView::Null)
            &&& record.field("contrast"@) == Some(JsonView::Null)
            &&& record.field("blur_estimate"@) == Some(JsonView::Null)
            &&& record.field("edge_density"@) == Some(JsonView::Null)
            &&& record.field("entropy"@) == Some(JsonView::Null)
            &&& record.field("likely_low_information"@) == Some(JsonView::Bool(tile.bytes < 128))
            &&& record.field("recommendation"@) == Some(JsonView::Text(if tile.bytes < 128 {
                "reject"@
            } else {
                "keep"@
            }))
            &&& record.field("reject_reasons"@) == Some(texts_view(if tile.bytes < 128 {
                seq!["very_small_file"@]
            } else {
                Seq::empty()
            }))
        }),
{
    reveal_strlit("id");
    reveal_strlit("type");
    reveal_strlit("blank_near_blank_score");
    reveal_strlit("mean_brightness");
    reveal_strlit("contrast");
    reveal_strlit("blur_estimate");
    reveal_strlit("edge_density");
    reveal_strlit("entropy");
    reveal_strlit("likely_low_information");
    reveal_strlit("recommendation");
    reveal_strlit("reject_reasons");
    assert("id"@.len() == 2);
    assert("type"@.len() == 4);
    assert("blank_near_blank_score"@.len() == 22);
    assert("mean_brightness"@.len() == 15);
    assert("contrast"@.len() == 8);
    assert("blur_estimate"@.len() == 13);
    assert("edge_density"@.len() == 12);
    assert("entropy"@.len() == 7);
    assert("likely_low_information"@.len() == 22);
    assert("recommendation"@.len() == 14);
    assert("reject_reasons"@.len() == 14);
    assert("recommendation"@[2] == 'c');
    assert("reject_reasons"@[2] == 'j');
    assert("blank_near_blank_score"@[0] == 'b');
    assert("likely_low_information"@[0] == 'l');
    let fields = tile_quality(tile)->Record_0;
    assert(first_field(fields, fields[0].0, 0));
    lemma_field_at(fields, 0);
    assert(first_field(fields, fields[1].0, 1));
    lemma_field_at(fields, 1);
    assert(first_field(fields, fields[2].0, 2));
    lemma_field_at(fields, 2);
    assert(first_field(fields, fields[3].0, 3));
    lemma_field_at(fields, 3);
    assert(first_field(fields, fields[4].0, 4));
    lemma_field_at(fields, 4);
    assert(first_field(fields, fields[5].0, 5));
    lemma_field_at(fields, 5);
    assert(first_field(fields, fields[6].0, 6));
    lemma_field_at(fields, 6);
    assert(first_field(fields, fields[7].0, 7));
    lemma_field_at(fields, 7);
    assert(first_field(fields, fields[8].0, 8));
    lemma_field_at(fields, 8);
    assert(first_field(fields, fields[9].0, 9));
    lemma_field_at(fields, 9);
    assert(first_field(fields, fields[10].0, 10));
    lemma_field_at(fields, 10);
}

/// Every mosaic is kept.
pub proof fn law_patch_verdict(patch: PatchView)
    ensures
        ({
            let record = patch_quality(patch);
            &&& record.field("id"@) == Some(JsonView::Text(patch.id()))
            &&& record.field("type"@) == Some(JsonView::Text("patch"@))
            &&& record.field("likely_low_information"@) == Some(JsonView::Bool(false))
            &&& record.field("recommendation"@) == Some(JsonView::Text("keep"@))
            &&& record.field("reject_reasons"@) == Some(texts_view(Seq::empty()))
        }),
{
    reveal_strlit("id");
    reveal_strlit("type");
    reveal_strlit("likely_low_information");
    reveal_strlit("recommendation");
    reveal_strlit("reject_reasons");
    assert("id"@.len() == 2);
    assert("type"@.len() == 4);
    assert("likely_low_information"@.len() == 22);
    assert("recommendation"@.len() == 14);
    assert("reject_reasons"@.len() == 14);
    assert("recommendation"@[2] == 'c');
    assert("reject_reasons"@[2] == 'j');
    let fields = patch_quality(patch)->Record_0;
    assert(first_field(fields, fields[0].0, 0));
    lemma_field_at(fields, 0);
    assert(first_field(fields, fields[1].0, 1));
    lemma_field_at(fields, 1);
    assert(first_field(fields, fields[2].0, 2));
    lemma_field_at(fields, 2);
    assert(first_field(fields, fields[3].0, 3));
    lemma_field_at(fields, 3);
    assert(first_field(fields, fields[4].0, 4));
    lemma_field_at(fields, 4);
}

/// The settings of a dataset tell, field by field, how and when it was prepared, with what, and how
/// much it holds. Nothing but metadata was made.
#[verifier::rlimit(60)]
pub proof fn law_settings_record(plan: DatasetPlan, stamp: StampView)
    ensures
        ({
            let record = config_document(plan, stamp);
            &&& record.field("images_modified"@) == Some(JsonView::Bool(false))
            &&& record.field("descriptors_computed"@) == Some(JsonView::Bool(false))
            &&& record.field("indexes_built"@) == Some(JsonView::Bool(false))
            &&& record.field("generated_images_default"@) == Some(JsonView::Bool(false))
            &&& record.field("schema_version"@) == Some(JsonView::Text("1.0"@))
            &&& record.field("geodot_version"@) == Some(JsonView::Text(stamp.version))
            &&& record.field("created_at"@) == Some(
                JsonView::Number(JsonNumber::Unsigned(stamp.created_at)),
            )
            &&& record.field("command"@) == Some(JsonView::Text(stamp.command))
            &&& record.field("output_directory"@) == Some(JsonView::Text(plan.settings().out@))
            &&& record.field("profile"@) == Some(JsonView::Text("aerial-vpr-default"@))
            &&& record.field("tile_roots"@) == Some(texts_view(
                roots_found(plan.images()).map_values(|root: ImageRoot| root_pattern(root)),
            ))
            &&& record.field("mode"@) == Some(JsonView::Text("virtual"@))
            &&& record.field("tile_size"@) == Some(JsonView::Number(JsonNumber::Unsigned(256)))
            &&& record.field("image_roots_detected"@) == Some(
                roots_view(roots_found(plan.images())),
            )
            &&& record.field("supported_image_extensions"@) == Some(
                texts_view(seq![".jpg"@, ".jpeg"@, ".png"@, ".webp"@]),
            )
            &&& record.field("zoom_levels_detected"@) == Some(
                counts_view(zooms_found(plan.images())),
            )
            &&& record.field("patch_sizes"@) == Some(counts_view(plan.mosaic_sizes()))
            &&& record.field("stride"@) == Some(
                JsonView::Number(JsonNumber::Unsigned(plan.settings().stride as u64)),
            )
            &&& record.field("rotations"@) == Some(counts_view(plan.settings().rotations@))
            &&& record.field("auto400m"@) == Some(JsonView::Bool(plan.settings().auto400m))
            &&& record.field("circular_crops_virtual"@) == Some(JsonView::Bool(true))
            &&& record.field("appearance"@) == Some(texts_view(Seq::empty()))
            &&& record.field("counts"@) == Some(totals_document(
                plan.images().len(),
                plan.mosaics().len(),
                plan.mosaics().len() * plan.settings().rotations@.len(),
                plan.sites().len(),
            ))
        }),
{
    law_variant_count(plan.mosaics(), plan.settings().rotations@);
    reveal_strlit("images_modified");
    reveal_strlit("descriptors_computed");
    reveal_strlit("indexes_built");
    reveal_strlit("generated_images_default");
    reveal_strlit("schema_version");
    reveal_strlit("geodot_version");
    reveal_strlit("created_at");
    reveal_strlit("command");
    reveal_strlit("output_directory");
    reveal_strlit("profile");
    reveal_strlit("tile_roots");
    reveal_strlit("mode");
    reveal_strlit("tile_size");
    reveal_strlit("image_roots_detected");
    reveal_strlit("supported_image_extensions");
    reveal_strlit("zoom_levels_detected");
    reveal_strlit("patch_sizes");
    reveal_strlit("stride");
    reveal_strlit("rotations");
    reveal_strlit("auto400m");
    reveal_strlit("circular_crops_virtual");
    reveal_strlit("appearance");
    reveal_strlit("counts");
    assert("images_modified"@.len() == 15);
    assert("descriptors_computed"@.len() == 20);
    assert("indexes_built"@.len() == 13);
    assert("generated_images_default"@.len() == 24);
    assert("schema_version"@.len() == 14);
    assert("geodot_version"@.len() == 14);
    assert("created_at"@.len() == 10);
    assert("command"@.len() == 7);
    assert("output_directory"@.len() == 16);
    assert("profile"@.len() == 7);
    assert("tile_roots"@.len() == 10);
    assert("mode"@.len() == 4);
    assert("tile_size"@.len() == 9);
    assert("image_roots_detected"@.len() == 20);
    assert("supported_image_extensions"@.len() == 26);
    assert("zoom_levels_detected"@.len() == 20);
    assert("patch_sizes"@.len() == 11);
    assert("stride"@.len() == 6);
    assert("rotations"@.len() == 9);
    assert("auto400m"@.len() == 8);
    assert("circular_crops_virtual"@.len() == 22);
    assert("appearance"@.len() == 10);
    assert("counts"@.len() == 6);
    assert("stride"@[0] == 's');
    assert("counts"@[0] == 'c');
    assert("command"@[0] == 'c');
    assert("profile"@[0] == 'p');
    assert("tile_size"@[0] == 't');
    assert("rotations"@[0] == 'r');
    assert("created_at"@[0] == 'c');
    assert("tile_roots"@[0] == 't');
    assert("appearance"@[0] == 'a');
    assert("schema_version"@[0] == 's');
    assert("geodot_version"@[0] == 'g');
    assert("descriptors_computed"@[0] == 'd');
    assert("image_roots_detected"@[0] == 'i');
    assert("zoom_levels_detected"@[0] == 'z');
    let fields = config_document(plan, stamp)->Record_0;
    assert(first_field(fields, fields[0].0, 0));
    lemma_field_at(fields, 0);
    assert(first_field(fields, fields[1].0, 1));
    lemma_field_at(fields, 1);
    assert(first_field(fields, fields[2].0, 2));
    lemma_field_at(fields, 2);
    assert(first_field(fields, fields[3].0, 3));
    lemma_field_at(fields, 3);
    assert(first_field(fields, fields[4].0, 4));
    lemma_field_at(fields, 4);
    assert(first_field(fields, fields[5].0, 5));
    lemma_field_at(fields, 5);
    assert(first_field(fields, fields[6].0, 6));
    lemma_field_at(fields, 6);
    assert(first_field(fields, fields[7].0, 7));
    lemma_field_at(fields, 7);
    assert(first_field(fields, fields[8].0, 8));
    lemma_field_at(fields, 8);
    assert(first_field(fields, fields[9].0, 9));
    lemma_field_at(fields, 9);
    assert(first_field(fields, fields[10].0, 10));
    lemma_field_at(fields, 10);
    assert(first_field(fields, fields[11].0, 11));
    lemma_field_at(fields, 11);
    assert(first_field(fields, fields[12].0, 12));
    lemma_field_at(fields, 12);
    assert(first_field(fields, fields[13].0, 13));
    lemma_field_at(fields, 13);
    assert(first_field(fields, fields[14].0, 14));
    lemma_field_at(fields, 14);
    assert(first_field(fields, fields[15].0, 15));
    lemma_field_at(fields, 15);
    assert(first_field(fields, fields[16].0, 16));
    lemma_field_at(fields, 16);
    assert(first_field(fields, fields[17].0, 17));
    lemma_field_at(fields, 17);
    assert(first_field(fields, fields[18].0, 18));
    lemma_field_at(fields, 18);
    assert(first_field(fields, fields[19].0, 19));
    lemma_field_at(fields, 19);
    assert(first_field(fields, fields[20].0, 20));
    lemma_field_at(fields, 20);
    assert(first_field(fields, fields[21].0, 21));
    lemma_field_at(fields, 21);
    assert(first_field(fields, fields[22].0, 22));
    lemma_field_at(fields, 22);
}

/// The totals tell how many images, mosaics, variants and places there are.
pub proof fn law_totals_record(tiles: nat, patches: nat, variants: nat, places: nat)
    ensures
        ({
            let record = totals_document(tiles, patches, variants, places);
            &&& record.field("tiles"@) == Some(JsonView::Number(JsonNumber::Unsigned(tiles as u64)))
            &&& record.field("patches"@) == Some(
                JsonView::Number(JsonNumber::Unsigned(patches as u64)),
            )
            &&& record.field("variants"@) == Some(
                JsonView::Number(JsonNumber::Unsigned(variants as u64)),
            )
            &&& record.field("places"@) == Some(
                JsonView::Number(JsonNumber::Unsigned(places as u64)),
            )
        }),
{
    reveal_strlit("tiles");
    reveal_strlit("patches");
    reveal_strlit("variants");
    reveal_strlit("places");
    assert("tiles"@.len() == 5);
    assert("patches"@.len() == 7);
    assert("variants"@.len() == 8);
    assert("places"@.len() == 6);
    let fields = totals_document(tiles, patches, variants, places)->Record_0;
    assert(first_field(fields, fields[0].0, 0));
    lemma_field_at(fields, 0);
    assert(first_field(fields, fields[1].0, 1));
    lemma_field_at(fields, 1);
    assert(first_field(fields, fields[2].0, 2));
    lemma_field_at(fields, 2);
    assert(first_field(fields, fields[3].0, 3));
    lemma_field_at(fields, 3);
}

/// There is a verdict on each image and on each mosaic, in their order.
pub proof fn law_verdicts_record(tiles: Seq<TileView>, patches: Seq<PatchView>)
    ensures
        ({
            let record = quality_document(tiles, patches);
            &&& record.field("tiles"@) matches Some(JsonView::List(listed_tiles))
            &&& listed_tiles.len() == tiles.len()
            &&& forall|i: int| 0 <= i < listed_tiles.len() ==> #[trigger] listed_tiles[i] == tile_quality(tiles[i])
            &&& record.field("patches"@) matches Some(JsonView::List(listed_patches))
            &&& listed_patches.len() == patches.len()
            &&& forall|i: int| 0 <= i < listed_patches.len() ==> #[trigger] listed_patches[i] == patch_quality(patches[i])
        }),
{
    reveal_strlit("tiles");
    reveal_strlit("patches");
    assert("tiles"@.len() == 5);
    assert("patches"@.len() == 7);
    let fields = quality_document(tiles, patches)->Record_0;
    assert(first_field(fields, fields[0].0, 0));
    lemma_field_at(fields, 0);
    assert(first_field(fields, fields[1].0, 1));
    lemma_field_at(fields, 1);
}

/// A list of texts holds each of them, in order.
pub proof fn law_text_lists(list: Seq<Seq<char>>)
    ensures
        texts_view(list) matches JsonView::List(items) && items.len() == list.len() && forall|i: int|
            0 <= i < list.len() ==> #[trigger] items[i] == JsonView::Text(list[i]),
{
}

/// A list of whole numbers holds each of them, in order.
pub proof fn law_number_lists(list: Seq<u32>)
    ensures
        counts_view(list) matches JsonView::List(items) && items.len() == list.len() && forall|i: int|
            0 <= i < list.len() ==> #[trigger] items[i] == JsonView::Number(
                JsonNumber::Unsigned(list[i] as u64),
            ),
{
}

/// A list of directories holds the name of each of them, in order.
pub proof fn law_root_lists(list: Seq<ImageRoot>)
    ensures
        roots_view(list) matches JsonView::List(items) && items.len() == list.len() && forall|i: int|
            0 <= i < list.len() ==> #[trigger] items[i] == JsonView::Text(
                match list[i] {
                    ImageRoot::Tiles => "tiles"@,
                    ImageRoot::DroneView => "drone-view"@,
                },
            ),
{
}

/// The record of mosaic `i` under rotation `j` is about that mosaic and tells that rotation: it is
/// turned by as many degrees as were asked for.
pub proof fn law_variant_records(patches: Seq<PatchView>, rotations: Seq<u32>, i: int, j: int)
    requires
        0 <= i < patches.len(),
        0 <= j < rotations.len(),
    ensures
        variant_documents(patches, rotations).len() == patches.len() * rotations.len(),
        0 <= i * rotations.len() + j < variant_documents(patches, rotations).len(),
        ({
            let record = variant_documents(patches, rotations)[i * rotations.len() + j];
            &&& record.field("rotation_degrees"@) == Some(
                JsonView::Number(JsonNumber::Unsigned(rotations[j] as u64)),
            )
            &&& record.field("patch_id"@) == Some(JsonView::Text(patches[i].id()))
            &&& record.field("variant_id"@) == Some(
                JsonView::Text(variant_name(patches[i].id(), rotations[j])),
            )
        }),
{
    law_variants_are_pairs(patches, rotations, i, j);
    law_variant_record(patches[i], rotations[j]);
}

/// Variants of one mosaic under different rotations differ in their rotation, and only those under
/// the same rotation are turned alike.
pub proof fn law_variants_turn(patch: PatchView, a: u32, b: u32)
    ensures
        variant_document(patch, a).field("rotation_degrees"@) == variant_document(patch, b).field(
            "rotation_degrees"@,
        ) <==> a == b,
{
    law_variant_record(patch, a);
    law_variant_record(patch, b);
}

/// The directories of a dataset are those of its images, each once, the drone images first.
pub proof fn law_roots_found(tiles: Seq<TileView>)
    ensures
        roots_found(tiles).no_duplicates(),
        forall|root: ImageRoot| #[trigger]
            roots_found(tiles).contains(root) <==> exists|i: int|
                0 <= i < tiles.len() && (#[trigger] tiles[i]).root == root,
        roots_found(tiles).len() == 2 ==> roots_found(tiles)[0] == ImageRoot::DroneView
            && roots_found(tiles)[1] == ImageRoot::Tiles,
{
    let roots = roots_found(tiles);
    assert forall|root: ImageRoot| #[trigger] roots.contains(root) <==> exists|i: int|
        0 <= i < tiles.len() && (#[trigger] tiles[i]).root == root by {
        if exists|i: int| 0 <= i < tiles.len() && (#[trigger] tiles[i]).root == root {
            assert(crate::dataset::has_root(tiles, root));
            if root == ImageRoot::DroneView {
                assert(roots[0] == root);
            } else {
                assert(roots[roots.len() - 1] == root);
            }
        }
    }
}

/// The zoom levels of a dataset are those of its images, in rising order.
pub proof fn law_zooms_found(tiles: Seq<TileView>)
    ensures
        rising(zooms_found(tiles)),
        forall|z: u32| #[trigger]
            zooms_found(tiles).contains(z) <==> exists|i: int|
                0 <= i < tiles.len() && (#[trigger] tiles[i]).tile.z == z,
{
    let zooms = tiles.map_values(|tile: TileView| tile.tile.z);
    crate::order::law_sorted_distinct(zooms);
    assert forall|z: u32| #[trigger] zooms_found(tiles).contains(z) <==> exists|i: int|
        0 <= i < tiles.len() && (#[trigger] tiles[i]).tile.z == z by {
        if zooms.contains(z) {
            let i = choose|i: int| 0 <= i < zooms.len() && zooms[i] == z;
            assert(tiles[i].tile.z == z);
        }
        if exists|i: int| 0 <= i < tiles.len() && (#[trigger] tiles[i]).tile.z == z {
            let i = choose|i: int| 0 <= i < tiles.len() && (#[trigger] tiles[i]).tile.z == z;
            assert(zooms[i] == z);
        }
    }
}

/// The pattern of the images of a directory names the directory, then zoom level, column and row.
pub proof fn law_root_patterns()
    ensures
        root_pattern(ImageRoot::Tiles) == "tiles/{z}/{x}/{y}.{jpg,jpeg,png,webp}"@,
        root_pattern(ImageRoot::DroneView) == "drone-view/{z}/{x}/{y}.{jpg,jpeg,png,webp}"@,
{
    reveal_strlit("tiles");
    reveal_strlit("drone-view");
    reveal_strlit("/{z}/{x}/{y}.{jpg,jpeg,png,webp}");
    reveal_strlit("tiles/{z}/{x}/{y}.{jpg,jpeg,png,webp}");
    reveal_strlit("drone-view/{z}/{x}/{y}.{jpg,jpeg,png,webp}");
    assert(root_pattern(ImageRoot::Tiles) =~= "tiles/{z}/{x}/{y}.{jpg,jpeg,png,webp}"@);
    assert(root_pattern(ImageRoot::DroneView) =~= "drone-view/{z}/{x}/{y}.{jpg,jpeg,png,webp}"@);
}

} // verus!
