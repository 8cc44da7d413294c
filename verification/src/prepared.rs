//! What validation finds of a dataset that was prepared here.
use crate::dataset::{
    DatasetPlan, StampView, config_document, law_variant_count, patch_documents, place_documents,
    rotated_documents, tile_documents, variant_documents,
};
use crate::discover::{SourceView, TileView, source_image};
use crate::double::{Double, MINUS_180, MINUS_90, PLUS_180, PLUS_90};
use crate::ids::{ImageRoot, law_variant_names_distinct, patch_name};
use crate::json::{
    JsonNumber, JsonView, equal_document, first_field, lemma_equal_is_same, lemma_field_at,
    same_document,
};
use crate::manifest::{
    PatchGeometry, TileGeometry, bbox_view, known_size, patch_document, place_document, texts_view,
    tile_document, variant_document,
};
use crate::patches::{
    PatchView, law_native_patches, law_patch_ids_distinct, law_patch_sources_exist,
    law_patches_are_sound, names_tile, patches_distinct, sound_patch, spanned,
};
use crate::places::{
    PlaceView, dataset_places, law_place_ids_distinct, law_places_are_sound, names_patch,
    place_keys, place_of,
};
use crate::records::law_tile_records;
use crate::render::{RenderFault, lemma_first_named, patch_image};
use crate::tile::TileBounds;
use crate::validate::{
    Dataset, bbox_valid, count_positive, errors_found, id_known, ids_resolve, ids_unique,
    item_text, items_of, law_valid_means_sound, metadata_only, patch_sound, place_sound,
    role_count, tile_sound, variant_sound,
};
use vstd::prelude::*;

verus! {

/// A text, a whole number, a truth value or nothing.
spec fn exact(value: JsonView) -> bool {
    !(value is Record) && !(value is List) && !(value matches JsonView::Number(JsonNumber::Real(_)))
}

/// A value that can only be said in one way: one of the above, or a list of them.
spec fn flat(value: JsonView) -> bool {
    match value {
        JsonView::List(items) => forall|i: int| 0 <= i < items.len() ==> exact(#[trigger] items[i]),
        _ => exact(value),
    }
}

proof fn lemma_same_flat(a: JsonView, b: JsonView)
    requires
        same_document(a, b),
        flat(b),
    ensures
        a == b,
{
    match (a, b) {
        (JsonView::List(x), JsonView::List(y)) => {
            assert forall|i: int| 0 <= i < x.len() implies x[i] == y[i] by {
                assert(same_document(x[i], y[i]));
                assert(exact(y[i]));
            }
            assert(x =~= y);
        },
        _ => {},
    }
}

proof fn lemma_same_field(a: JsonView, b: JsonView, name: Seq<char>)
    requires
        same_document(a, b),
        b is Record,
        b.field(name) matches Some(value) && flat(value),
    ensures
        a.field(name) == b.field(name),
{
    assert(a is Record);
    let found = a.field(name);
    lemma_same_flat(found->0, b.field(name)->0);
}

proof fn lemma_tile_fields(tile: TileView, geometry: TileGeometry)
    ensures
        tile_document(tile, geometry).field("tile_id"@) == Some(JsonView::Text(tile.id())),
        tile_document(tile, geometry).field("path"@) == Some(JsonView::Text(tile.path)),
        tile_document(tile, geometry).field("bbox"@) == Some(bbox_view(geometry.bounds)),
        tile_document(tile, geometry).field("image_width"@) == Some(known_size(tile.header.width)),
        tile_document(tile, geometry).field("image_height"@) == Some(
            known_size(tile.header.height),
        ),
{
    reveal_strlit("tile_id");
    reveal_strlit("path");
    reveal_strlit("bbox");
    reveal_strlit("image_width");
    reveal_strlit("image_height");
    assert("tile_id"@.len() == 7 && "path"@.len() == 4 && "bbox"@.len() == 4);
    assert("image_width"@.len() == 11 && "image_height"@.len() == 12);
    assert("path"@[0] == 'p' && "bbox"@[0] == 'b');
    let fields = tile_document(tile, geometry)->Record_0;
    assert(first_field(fields, fields[0].0, 0));
    lemma_field_at(fields, 0);
    assert(first_field(fields, fields[1].0, 1));
    lemma_field_at(fields, 1);
    assert(first_field(fields, fields[2].0, 2));
    lemma_field_at(fields, 2);
    assert(first_field(fields, fields[3].0, 3));
    lemma_field_at(fields, 3);
    assert(first_field(fields, fields[4].0, 4));
    lemma_field_at(fields, 4);
}

proof fn lemma_patch_fields(patch: PatchView, geometry: PatchGeometry, stride: u32)
    ensures
        patch_document(patch, geometry, stride).field("patch_id"@) == Some(
            JsonView::Text(patch.id()),
        ),
        patch_document(patch, geometry, stride).field("bbox"@) == Some(
            bbox_view(geometry.bounds()),
        ),
        patch_document(patch, geometry, stride).field("source_tile_ids"@) == Some(
            texts_view(patch.sources),
        ),
{
    reveal_strlit("patch_id");
    reveal_strlit("bbox");
    reveal_strlit("source_tile_ids");
    assert("patch_id"@.len() == 8 && "bbox"@.len() == 4 && "source_tile_ids"@.len() == 15);
    let fields = patch_document(patch, geometry, stride)->Record_0;
    assert(first_field(fields, fields[0].0, 0));
    lemma_field_at(fields, 0);
    assert(first_field(fields, fields[1].0, 1));
    lemma_field_at(fields, 1);
    assert(first_field(fields, fields[2].0, 2));
    lemma_field_at(fields, 2);
}

proof fn lemma_variant_fields(patch: PatchView, rotation: u32)
    ensures
        variant_document(patch, rotation).field("variant_id"@) == Some(
            JsonView::Text(crate::ids::variant_name(patch.id(), rotation)),
        ),
        variant_document(patch, rotation).field("patch_id"@) == Some(JsonView::Text(patch.id())),
{
    reveal_strlit("variant_id");
    reveal_strlit("patch_id");
    assert("variant_id"@.len() == 10 && "patch_id"@.len() == 8);
    let fields = variant_document(patch, rotation)->Record_0;
    assert(first_field(fields, fields[0].0, 0));
    lemma_field_at(fields, 0);
    assert(first_field(fields, fields[1].0, 1));
    lemma_field_at(fields, 1);
}

proof fn lemma_place_fields(place: PlaceView, geometry: TileGeometry)
    ensures
        place_document(place, geometry).field("place_id"@) == Some(JsonView::Text(place.id())),
        place_document(place, geometry).field("tile_ids"@) == Some(texts_view(place.tile_ids)),
        place_document(place, geometry).field("reference_tile_ids"@) == Some(
            texts_view(place.reference_tile_ids),
        ),
        place_document(place, geometry).field("query_tile_ids"@) == Some(
            texts_view(place.query_tile_ids),
        ),
        place_document(place, geometry).field("patch_ids"@) == Some(texts_view(place.patch_ids)),
{
    reveal_strlit("place_id");
    reveal_strlit("tile_ids");
    reveal_strlit("reference_tile_ids");
    reveal_strlit("query_tile_ids");
    reveal_strlit("patch_ids");
    assert("place_id"@.len() == 8 && "tile_ids"@.len() == 8 && "patch_ids"@.len() == 9);
    assert("reference_tile_ids"@.len() == 18 && "query_tile_ids"@.len() == 14);
    assert("place_id"@[0] == 'p' && "tile_ids"@[0] == 't');
    let fields = place_document(place, geometry)->Record_0;
    assert(first_field(fields, fields[0].0, 0));
    lemma_field_at(fields, 0);
    assert(first_field(fields, fields[1].0, 1));
    lemma_field_at(fields, 1);
    assert(first_field(fields, fields[2].0, 2));
    lemma_field_at(fields, 2);
    assert(first_field(fields, fields[3].0, 3));
    lemma_field_at(fields, 3);
    assert(first_field(fields, fields[4].0, 4));
    lemma_field_at(fields, 4);
}

proof fn lemma_config_fields(plan: DatasetPlan, stamp: StampView)
    ensures
        config_document(plan, stamp).field("images_modified"@) == Some(JsonView::Bool(false)),
        config_document(plan, stamp).field("descriptors_computed"@) == Some(JsonView::Bool(false)),
        config_document(plan, stamp).field("indexes_built"@) == Some(JsonView::Bool(false)),
        config_document(plan, stamp).field("generated_images_default"@) == Some(
            JsonView::Bool(false),
        ),
{
    reveal_strlit("images_modified");
    reveal_strlit("descriptors_computed");
    reveal_strlit("indexes_built");
    reveal_strlit("generated_images_default");
    assert("images_modified"@.len() == 15 && "descriptors_computed"@.len() == 20);
    assert("indexes_built"@.len() == 13 && "generated_images_default"@.len() == 24);
    let fields = config_document(plan, stamp)->Record_0;
    assert(first_field(fields, fields[0].0, 0));
    lemma_field_at(fields, 0);
    assert(first_field(fields, fields[1].0, 1));
    lemma_field_at(fields, 1);
    assert(first_field(fields, fields[2].0, 2));
    lemma_field_at(fields, 2);
    assert(first_field(fields, fields[3].0, 3));
    lemma_field_at(fields, 3);
}

/// The document was read back: the list says, item by item, what was written.
spec fn read_back(items: Seq<JsonView>, written: Seq<JsonView>) -> bool {
    items.len() == written.len() && forall|i: int|
        0 <= i < items.len() ==> same_document(#[trigger] items[i], written[i])
}

proof fn lemma_read_back(document: JsonView, written: Seq<JsonView>)
    requires
        same_document(document, JsonView::List(written)),
    ensures
        read_back(items_of(document), written),
{
}

/// No two images have the same name.
pub open spec fn tiles_distinct(tiles: Seq<TileView>) -> bool {
    forall|i: int, j: int|
        0 <= i < j < tiles.len() ==> (#[trigger] tiles[i]).id() != (#[trigger] tiles[j]).id()
}

/// An image that was found under a directory of source images.
pub open spec fn found(tile: TileView) -> bool {
    exists|file: SourceView| #[trigger] source_image(tile.root, file) == Some(tile)
}

proof fn lemma_found_path(tile: TileView)
    requires
        found(tile),
    ensures
        tile.path.len() > 0,
{
    reveal_strlit("tiles");
    reveal_strlit("drone-view");
    assert("tiles"@.len() == 5 && "drone-view"@.len() == 10);
}

proof fn lemma_tiles_read(
    items: Seq<JsonView>,
    tiles: Seq<TileView>,
    geometry: Seq<TileGeometry>,
    present: Seq<bool>,
)
    requires
        read_back(items, tile_documents(tiles, geometry)),
        tiles_distinct(tiles),
        present.len() == tiles.len(),
        geometry.len() == tiles.len(),
        forall|i: int| 0 <= i < tiles.len() ==> found(#[trigger] tiles[i]),
        forall|i: int| 0 <= i < tiles.len() ==> present[i],
        forall|i: int|
            0 <= i < tiles.len() ==> (#[trigger] tiles[i]).header.width != Some(0u32)
                && tiles[i].header.height != Some(0u32),
        forall|i: int|
            0 <= i < items.len() ==> bbox_valid((#[trigger] items[i]).field("bbox"@)),
    ensures
        ids_unique(items, "tile_id"@),
        forall|i: int| 0 <= i < items.len() ==> tile_sound(#[trigger] items[i], present[i]),
        forall|name: Seq<char>|
            names_tile(tiles, name) ==> #[trigger] id_known(items, "tile_id"@, name),
{
    let written = tile_documents(tiles, geometry);
    assert forall|i: int| 0 <= i < items.len() implies (#[trigger] items[i]).field_text(
        "tile_id"@,
    ) == Some(tiles[i].id()) && tile_sound(items[i], present[i]) by {
        assert(same_document(items[i], written[i]));
        assert(written[i] == tile_document(tiles[i], geometry[i]));
        lemma_tile_fields(tiles[i], geometry[i]);
        lemma_same_field(items[i], written[i], "tile_id"@);
        lemma_same_field(items[i], written[i], "path"@);
        lemma_same_field(items[i], written[i], "image_width"@);
        lemma_same_field(items[i], written[i], "image_height"@);
        lemma_found_path(tiles[i]);
        assert(found(tiles[i]));
        assert(present[i]);
        assert(bbox_valid(items[i].field("bbox"@)));
        assert(count_positive(Some(known_size(tiles[i].header.width))));
        assert(count_positive(Some(known_size(tiles[i].header.height))));
    }
    assert forall|i: int, j: int| 0 <= i < j < items.len() implies (#[trigger] items[i]).field_text(
        "tile_id"@,
    ) != (#[trigger] items[j]).field_text("tile_id"@) by {
        assert(tiles[i].id() != tiles[j].id());
    }
    assert forall|name: Seq<char>| names_tile(tiles, name) implies #[trigger] id_known(
        items,
        "tile_id"@,
        name,
    ) by {
        let i = choose|i: int| 0 <= i < tiles.len() && (#[trigger] tiles[i]).id() == name;
        assert(items[i].field_text("tile_id"@) == Some(name));
    }
}

/// A list of names in a document resolves where each name does.
proof fn lemma_texts_resolve(names: Seq<Seq<char>>, items: Seq<JsonView>, field: Seq<char>)
    requires
        forall|k: int| 0 <= k < names.len() ==> id_known(items, field, #[trigger] names[k]),
    ensures
        flat(texts_view(names)),
        texts_view(names).list() matches Some(list) && ids_resolve(list, items, field),
{
    let list = names.map_values(|text: Seq<char>| JsonView::Text(text));
    assert forall|k: int| 0 <= k < list.len() implies id_known(
        items,
        field,
        item_text(#[trigger] list[k]),
    ) by {
        assert(item_text(list[k]) == names[k]);
    }
}

proof fn lemma_patches_read(
    items: Seq<JsonView>,
    tile_items: Seq<JsonView>,
    tiles: Seq<TileView>,
    patches: Seq<PatchView>,
    geometry: Seq<PatchGeometry>,
    stride: u32,
)
    requires
        read_back(items, patch_documents(patches, geometry, stride)),
        patches_distinct(patches),
        geometry.len() == patches.len(),
        forall|i: int| 0 <= i < patches.len() ==> sound_patch(tiles, #[trigger] patches[i]),
        forall|i: int|
            0 <= i < items.len() ==> bbox_valid((#[trigger] items[i]).field("bbox"@)),
        forall|name: Seq<char>|
            names_tile(tiles, name) ==> #[trigger] id_known(tile_items, "tile_id"@, name),
    ensures
        ids_unique(items, "patch_id"@),
        forall|i: int| 0 <= i < items.len() ==> patch_sound(#[trigger] items[i], tile_items),
        forall|name: Seq<char>|
            names_patch(patches, name) ==> #[trigger] id_known(items, "patch_id"@, name),
{
    let written = patch_documents(patches, geometry, stride);
    assert forall|i: int| 0 <= i < items.len() implies (#[trigger] items[i]).field_text(
        "patch_id"@,
    ) == Some(patches[i].id()) && patch_sound(items[i], tile_items) by {
        assert(same_document(items[i], written[i]));
        assert(written[i] == patch_document(patches[i], geometry[i], stride));
        lemma_patch_fields(patches[i], geometry[i], stride);
        lemma_same_field(items[i], written[i], "patch_id"@);
        assert(sound_patch(tiles, patches[i]));
        law_patch_sources_exist(tiles, patches[i]);
        let names = patches[i].sources;
        assert forall|k: int| 0 <= k < names.len() implies id_known(
            tile_items,
            "tile_id"@,
            #[trigger] names[k],
        ) by {
            assert(names_tile(tiles, patches[i].sources[k]));
        }
        lemma_texts_resolve(names, tile_items, "tile_id"@);
        lemma_same_field(items[i], written[i], "source_tile_ids"@);
        assert(bbox_valid(items[i].field("bbox"@)));
    }
    assert forall|i: int, j: int| 0 <= i < j < items.len() implies (#[trigger] items[i]).field_text(
        "patch_id"@,
    ) != (#[trigger] items[j]).field_text("patch_id"@) by {
        assert(patches[i].id() != patches[j].id());
    }
    assert forall|name: Seq<char>| names_patch(patches, name) implies #[trigger] id_known(
        items,
        "patch_id"@,
        name,
    ) by {
        let i = choose|i: int| 0 <= i < patches.len() && (#[trigger] patches[i]).id() == name;
        assert(items[i].field_text("patch_id"@) == Some(name));
    }
}

/// The variant of a mosaic under a rotation.
spec fn is_variant(
    document: JsonView,
    patches: Seq<PatchView>,
    rotations: Seq<u32>,
    p: int,
    r: int,
) -> bool {
    &&& 0 <= p < patches.len()
    &&& 0 <= r < rotations.len()
    &&& document == variant_document(patches[p], rotations[r])
}

spec fn some_variant(document: JsonView, patches: Seq<PatchView>, rotations: Seq<u32>) -> bool {
    exists|p: int, r: int| is_variant(document, patches, rotations, p, r)
}

proof fn lemma_variants_written(patches: Seq<PatchView>, rotations: Seq<u32>)
    requires
        patches_distinct(patches),
        rotations.no_duplicates(),
    ensures
        forall|k: int|
            0 <= k < variant_documents(patches, rotations).len() ==> some_variant(
                #[trigger] variant_documents(patches, rotations)[k],
                patches,
                rotations,
            ),
        ids_unique(variant_documents(patches, rotations), "variant_id"@),
    decreases patches.len(),
{
    let whole = variant_documents(patches, rotations);
    if patches.len() > 0 {
        let less = patches.drop_last();
        let last = patches.len() - 1;
        let front = variant_documents(less, rotations);
        let row = rotated_documents(patches.last(), rotations);
        assert forall|i: int, j: int| 0 <= i < j < less.len() implies (#[trigger] less[i]).id() != (
        #[trigger] less[j]).id() by {
            assert(patches[i].id() != patches[j].id());
        }
        lemma_variants_written(less, rotations);
        assert(whole == front + row);
        assert forall|k: int| 0 <= k < whole.len() implies some_variant(
            #[trigger] whole[k],
            patches,
            rotations,
        ) by {
            if k < front.len() {
                assert(whole[k] == front[k]);
                assert(some_variant(front[k], less, rotations));
                let (p, r) = choose|p: int, r: int| is_variant(front[k], less, rotations, p, r);
                assert(is_variant(whole[k], patches, rotations, p, r));
            } else {
                let r = k - front.len();
                assert(whole[k] == row[r]);
                assert(is_variant(whole[k], patches, rotations, last, r));
            }
        }
        assert forall|k: int| 0 <= k < whole.len() implies (#[trigger] whole[k]).field_text(
            "variant_id"@,
        ) is Some by {
            assert(some_variant(whole[k], patches, rotations));
            let (p, r) = choose|p: int, r: int| is_variant(whole[k], patches, rotations, p, r);
            lemma_variant_fields(patches[p], rotations[r]);
        }
        assert forall|k: int, l: int| 0 <= k < l < whole.len() implies (
        #[trigger] whole[k]).field_text("variant_id"@) != (#[trigger] whole[l]).field_text(
            "variant_id"@,
        ) by {
            if l < front.len() {
                assert(whole[k] == front[k] && whole[l] == front[l]);
            } else {
                let r = l - front.len();
                assert(whole[l] == row[r]);
                lemma_variant_fields(patches[last], rotations[r]);
                if k < front.len() {
                    assert(whole[k] == front[k]);
                    assert(some_variant(front[k], less, rotations));
                    let (p, q) = choose|p: int, q: int| is_variant(front[k], less, rotations, p, q);
                    lemma_variant_fields(less[p], rotations[q]);
                    assert(patches[p].id() != patches[last].id());
                    if whole[k].field_text("variant_id"@) == whole[l].field_text("variant_id"@) {
                        law_variant_names_distinct(
                            patches[p].id(),
                            rotations[q],
                            patches[last].id(),
                            rotations[r],
                        );
                    }
                } else {
                    let q = k - front.len();
                    assert(whole[k] == row[q]);
                    lemma_variant_fields(patches[last], rotations[q]);
                    if whole[k].field_text("variant_id"@) == whole[l].field_text("variant_id"@) {
                        law_variant_names_distinct(
                            patches[last].id(),
                            rotations[q],
                            patches[last].id(),
                            rotations[r],
                        );
                    }
                }
            }
        }
    }
}

proof fn lemma_variants_read(
    items: Seq<JsonView>,
    patch_items: Seq<JsonView>,
    patches: Seq<PatchView>,
    rotations: Seq<u32>,
)
    requires
        read_back(items, variant_documents(patches, rotations)),
        patches_distinct(patches),
        rotations.no_duplicates(),
        forall|name: Seq<char>|
            names_patch(patches, name) ==> #[trigger] id_known(patch_items, "patch_id"@, name),
    ensures
        ids_unique(items, "variant_id"@),
        forall|i: int| 0 <= i < items.len() ==> variant_sound(#[trigger] items[i], patch_items),
{
    let written = variant_documents(patches, rotations);
    lemma_variants_written(patches, rotations);
    assert forall|i: int| 0 <= i < items.len() implies (#[trigger] items[i]).field_text(
        "variant_id"@,
    ) == written[i].field_text("variant_id"@) && variant_sound(items[i], patch_items) by {
        assert(same_document(items[i], written[i]));
        assert(some_variant(written[i], patches, rotations));
        let (p, r) = choose|p: int, r: int| is_variant(written[i], patches, rotations, p, r);
        lemma_variant_fields(patches[p], rotations[r]);
        lemma_same_field(items[i], written[i], "variant_id"@);
        lemma_same_field(items[i], written[i], "patch_id"@);
        assert(names_patch(patches, patches[p].id()));
        assert(id_known(patch_items, "patch_id"@, patches[p].id()));
    }
    assert forall|i: int, j: int| 0 <= i < j < items.len() implies (#[trigger] items[i]).field_text(
        "variant_id"@,
    ) != (#[trigger] items[j]).field_text("variant_id"@) by {
        assert(written[i].field_text("variant_id"@) != written[j].field_text("variant_id"@));
    }
    assert forall|i: int| 0 <= i < items.len() implies (#[trigger] items[i]).field_text(
        "variant_id"@,
    ) is Some by {
        assert(written[i].field_text("variant_id"@) is Some);
    }
}

proof fn lemma_places_read(
    items: Seq<JsonView>,
    tile_items: Seq<JsonView>,
    patch_items: Seq<JsonView>,
    tiles: Seq<TileView>,
    patches: Seq<PatchView>,
    geometry: Seq<TileGeometry>,
)
    requires
        read_back(items, place_documents(dataset_places(tiles, patches), geometry)),
        forall|name: Seq<char>|
            names_tile(tiles, name) ==> #[trigger] id_known(tile_items, "tile_id"@, name),
        forall|name: Seq<char>|
            names_patch(patches, name) ==> #[trigger] id_known(patch_items, "patch_id"@, name),
    ensures
        ids_unique(items, "place_id"@),
        forall|i: int|
            0 <= i < items.len() ==> place_sound(#[trigger] items[i], tile_items, patch_items),
{
    let places = dataset_places(tiles, patches);
    let written = place_documents(places, geometry);
    law_place_ids_distinct(tiles, patches);
    assert forall|i: int| 0 <= i < items.len() implies (#[trigger] items[i]).field_text(
        "place_id"@,
    ) == Some(places[i].id()) && place_sound(items[i], tile_items, patch_items) by {
        let place = places[i];
        assert(same_document(items[i], written[i]));
        assert(written[i] == place_document(place, geometry[place.first]));
        assert(place == place_of(tiles, patches, place_keys(tiles)[i]));
        lemma_place_fields(place, geometry[place.first]);
        lemma_same_field(items[i], written[i], "place_id"@);
        law_places_are_sound(tiles, patches, place_keys(tiles)[i]);
        assert forall|k: int| 0 <= k < place.tile_ids.len() implies id_known(
            tile_items,
            "tile_id"@,
            #[trigger] place.tile_ids[k],
        ) by {
            assert(names_tile(tiles, place.tile_ids[k]));
        }
        lemma_texts_resolve(place.tile_ids, tile_items, "tile_id"@);
        lemma_same_field(items[i], written[i], "tile_ids"@);
        assert forall|k: int| 0 <= k < place.reference_tile_ids.len() implies id_known(
            tile_items,
            "tile_id"@,
            #[trigger] place.reference_tile_ids[k],
        ) by {
            assert(names_tile(tiles, place.reference_tile_ids[k]));
        }
        lemma_texts_resolve(place.reference_tile_ids, tile_items, "tile_id"@);
        lemma_same_field(items[i], written[i], "reference_tile_ids"@);
        assert forall|k: int| 0 <= k < place.query_tile_ids.len() implies id_known(
            tile_items,
            "tile_id"@,
            #[trigger] place.query_tile_ids[k],
        ) by {
            assert(names_tile(tiles, place.query_tile_ids[k]));
        }
        lemma_texts_resolve(place.query_tile_ids, tile_items, "tile_id"@);
        lemma_same_field(items[i], written[i], "query_tile_ids"@);
        assert forall|k: int| 0 <= k < place.patch_ids.len() implies id_known(
            patch_items,
            "patch_id"@,
            #[trigger] place.patch_ids[k],
        ) by {
            assert(names_patch(patches, place.patch_ids[k]));
        }
        lemma_texts_resolve(place.patch_ids, patch_items, "patch_id"@);
        lemma_same_field(items[i], written[i], "patch_ids"@);
    }
    assert forall|i: int, j: int| 0 <= i < j < items.len() implies (#[trigger] items[i]).field_text(
        "place_id"@,
    ) != (#[trigger] items[j]).field_text("place_id"@) by {
        assert(places[i].id() != places[j].id());
    }
}

/// A prepared dataset passes validation: once its documents are read back, whatever the order of
/// their fields, nothing is wrong with them, and they hold as much as was prepared. This holds
/// where each image was found under its directory, is there only once, is still there and tells no
/// empty size, where the bounds that were read lie on the globe, and where no rotation is asked for
/// twice.
pub proof fn law_prepared_dataset_is_valid(
    plan: DatasetPlan,
    tile_geometry: Seq<TileGeometry>,
    patch_geometry: Seq<PatchGeometry>,
    stamp: StampView,
    dataset: Dataset,
    present: Seq<bool>,
)
    requires
        plan.wf(),
        tile_geometry.len() == plan.images().len(),
        patch_geometry.len() == plan.mosaics().len(),
        present.len() == plan.images().len(),
        same_document(
            dataset.tiles@,
            JsonView::List(tile_documents(plan.images(), tile_geometry)),
        ),
        same_document(
            dataset.patches@,
            JsonView::List(
                patch_documents(plan.mosaics(), patch_geometry, plan.settings().stride),
            ),
        ),
        same_document(
            dataset.variants@,
            JsonView::List(variant_documents(plan.mosaics(), plan.settings().rotations@)),
        ),
        same_document(
            dataset.places@,
            JsonView::List(place_documents(plan.sites(), tile_geometry)),
        ),
        same_document(dataset.dataset@, config_document(plan, stamp)),
        tiles_distinct(plan.images()),
        plan.settings().rotations@.no_duplicates(),
        forall|i: int| 0 <= i < plan.images().len() ==> found(#[trigger] plan.images()[i]),
        forall|i: int| 0 <= i < plan.images().len() ==> #[trigger] present[i],
        forall|i: int|
            0 <= i < plan.images().len() ==> (#[trigger] plan.images()[i]).header.width != Some(
                0u32,
            ) && plan.images()[i].header.height != Some(0u32),
        forall|i: int|
            0 <= i < items_of(dataset.tiles@).len() ==> bbox_valid(
                (#[trigger] items_of(dataset.tiles@)[i]).field("bbox"@),
            ),
        forall|i: int|
            0 <= i < items_of(dataset.patches@).len() ==> bbox_valid(
                (#[trigger] items_of(dataset.patches@)[i]).field("bbox"@),
            ),
    ensures
        errors_found(dataset, present).len() == 0,
        items_of(dataset.tiles@).len() == plan.images().len(),
        items_of(dataset.patches@).len() == plan.mosaics().len(),
        items_of(dataset.variants@).len() == plan.mosaics().len()
            * plan.settings().rotations@.len(),
        items_of(dataset.places@).len() == plan.sites().len(),
{
    let tiles = plan.images();
    let patches = plan.mosaics();
    let stride = plan.settings().stride;
    let rotations = plan.settings().rotations@;
    plan.lemma_settings();
    let tile_items = items_of(dataset.tiles@);
    let patch_items = items_of(dataset.patches@);
    let variant_items = items_of(dataset.variants@);
    let place_items = items_of(dataset.places@);
    lemma_read_back(dataset.tiles@, tile_documents(tiles, tile_geometry));
    lemma_read_back(dataset.patches@, patch_documents(patches, patch_geometry, stride));
    lemma_read_back(dataset.variants@, variant_documents(patches, rotations));
    lemma_read_back(dataset.places@, place_documents(plan.sites(), tile_geometry));
    law_variant_count(patches, rotations);
    law_patch_ids_distinct(tiles, plan.mosaic_sizes(), stride);
    assert forall|i: int| 0 <= i < patches.len() implies sound_patch(
        tiles,
        #[trigger] patches[i],
    ) by {
        law_patches_are_sound(tiles, plan.mosaic_sizes(), stride, i);
    }
    lemma_tiles_read(tile_items, tiles, tile_geometry, present);
    lemma_patches_read(patch_items, tile_items, tiles, patches, patch_geometry, stride);
    lemma_variants_read(variant_items, patch_items, patches, rotations);
    lemma_places_read(place_items, tile_items, patch_items, tiles, patches, tile_geometry);
    lemma_config_fields(plan, stamp);
    let config = config_document(plan, stamp);
    lemma_same_field(dataset.dataset@, config, "images_modified"@);
    lemma_same_field(dataset.dataset@, config, "descriptors_computed"@);
    lemma_same_field(dataset.dataset@, config, "indexes_built"@);
    lemma_same_field(dataset.dataset@, config, "generated_images_default"@);
    assert(metadata_only(dataset.dataset@));
    law_valid_means_sound(
        tile_items,
        patch_items,
        variant_items,
        place_items,
        dataset.dataset@,
        present,
    );
}

/// Bounds that lie on the globe, west before east and south before north.
pub open spec fn on_globe(bounds: TileBounds) -> bool {
    &&& (Double { bits: MINUS_180 }).at_most(bounds.lon_min)
    &&& bounds.lon_min.below(bounds.lon_max)
    &&& bounds.lon_max.at_most(Double { bits: PLUS_180 })
    &&& (Double { bits: MINUS_90 }).at_most(bounds.lat_min)
    &&& bounds.lat_min.below(bounds.lat_max)
    &&& bounds.lat_max.at_most(Double { bits: PLUS_90 })
}

/// The second bounds do not start further west than the first, nor end further north.
pub open spec fn south_east_of(first: TileBounds, last: TileBounds) -> bool {
    first.lon_min.at_most(last.lon_min) && last.lat_min.at_most(first.lat_min)
}

/// What is written of bounds is valid exactly where they lie on the globe, in order.
pub proof fn law_written_bounds_are_valid(bounds: TileBounds)
    ensures
        bbox_valid(Some(bbox_view(bounds))) <==> on_globe(bounds),
{
    let items = bbox_view(bounds)->List_0;
    assert(items.len() == 4);
    assert(items[0].double() == Some(bounds.lon_min));
    assert(items[1].double() == Some(bounds.lat_min));
    assert(items[2].double() == Some(bounds.lon_max));
    assert(items[3].double() == Some(bounds.lat_max));
}

/// A mosaic lies on the globe where the tiles in its corners do, the last to the south east of the
/// first.
pub proof fn law_spanned_bounds_are_valid(first: TileBounds, last: TileBounds)
    requires
        on_globe(first),
        on_globe(last),
        south_east_of(first, last),
    ensures
        on_globe(spanned(first, last)),
        bbox_valid(Some(bbox_view(spanned(first, last)))),
{
    law_written_bounds_are_valid(spanned(first, last));
}

proof fn lemma_equal_bounds(item: JsonView, written: JsonView, bounds: TileBounds)
    requires
        equal_document(item, written),
        written is Record,
        written.field("bbox"@) == Some(bbox_view(bounds)),
    ensures
        item.field("bbox"@) == Some(bbox_view(bounds)),
{
    assert(item is Record);
    let part = item.field("bbox"@);
    let found = part->0;
    let list = bbox_view(bounds);
    assert(part is Some && equal_document(found, list));
    let x = found->List_0;
    let y = list->List_0;
    assert forall|i: int| 0 <= i < x.len() implies x[i] == y[i] by {
        assert(equal_document(x[i], y[i]));
        assert(y[i] is Number);
    }
    assert(x =~= y);
}

/// A prepared dataset whose documents read back as they were written passes validation, and holds
/// as much as was prepared. The order of fields does not matter. This holds where each image was
/// found under its directory, is there only once, is still there and tells no empty size, where the
/// images and the corners of the mosaics lie on the globe, and where no rotation is asked for
/// twice.
pub proof fn law_dataset_read_as_written_is_valid(
    plan: DatasetPlan,
    tile_geometry: Seq<TileGeometry>,
    patch_geometry: Seq<PatchGeometry>,
    stamp: StampView,
    dataset: Dataset,
    present: Seq<bool>,
)
    requires
        plan.wf(),
        tile_geometry.len() == plan.images().len(),
        patch_geometry.len() == plan.mosaics().len(),
        present.len() == plan.images().len(),
        equal_document(
            dataset.tiles@,
            JsonView::List(tile_documents(plan.images(), tile_geometry)),
        ),
        equal_document(
            dataset.patches@,
            JsonView::List(
                patch_documents(plan.mosaics(), patch_geometry, plan.settings().stride),
            ),
        ),
        equal_document(
            dataset.variants@,
            JsonView::List(variant_documents(plan.mosaics(), plan.settings().rotations@)),
        ),
        equal_document(
            dataset.places@,
            JsonView::List(place_documents(plan.sites(), tile_geometry)),
        ),
        equal_document(dataset.dataset@, config_document(plan, stamp)),
        tiles_distinct(plan.images()),
        plan.settings().rotations@.no_duplicates(),
        forall|i: int| 0 <= i < plan.images().len() ==> found(#[trigger] plan.images()[i]),
        forall|i: int| 0 <= i < plan.images().len() ==> #[trigger] present[i],
        forall|i: int|
            0 <= i < plan.images().len() ==> (#[trigger] plan.images()[i]).header.width != Some(
                0u32,
            ) && plan.images()[i].header.height != Some(0u32),
        forall|i: int|
            0 <= i < tile_geometry.len() ==> on_globe((#[trigger] tile_geometry[i]).bounds),
        forall|i: int|
            0 <= i < patch_geometry.len() ==> {
                let corners = #[trigger] patch_geometry[i];
                &&& on_globe(corners.first)
                &&& on_globe(corners.last)
                &&& south_east_of(corners.first, corners.last)
            },
    ensures
        errors_found(dataset, present).len() == 0,
        items_of(dataset.tiles@).len() == plan.images().len(),
        items_of(dataset.patches@).len() == plan.mosaics().len(),
        items_of(dataset.variants@).len() == plan.mosaics().len()
            * plan.settings().rotations@.len(),
        items_of(dataset.places@).len() == plan.sites().len(),
{
    let stride = plan.settings().stride;
    let written_tiles = tile_documents(plan.images(), tile_geometry);
    let written_patches = patch_documents(plan.mosaics(), patch_geometry, stride);
    lemma_equal_is_same(dataset.tiles@, JsonView::List(written_tiles));
    lemma_equal_is_same(dataset.patches@, JsonView::List(written_patches));
    lemma_equal_is_same(
        dataset.variants@,
        JsonView::List(variant_documents(plan.mosaics(), plan.settings().rotations@)),
    );
    lemma_equal_is_same(
        dataset.places@,
        JsonView::List(place_documents(plan.sites(), tile_geometry)),
    );
    lemma_equal_is_same(dataset.dataset@, config_document(plan, stamp));
    let tile_items = items_of(dataset.tiles@);
    let patch_items = items_of(dataset.patches@);
    assert forall|i: int| 0 <= i < tile_items.len() implies bbox_valid(
        (#[trigger] tile_items[i]).field("bbox"@),
    ) by {
        assert(equal_document(tile_items[i], written_tiles[i]));
        lemma_tile_fields(plan.images()[i], tile_geometry[i]);
        lemma_equal_bounds(tile_items[i], written_tiles[i], tile_geometry[i].bounds);
        law_written_bounds_are_valid(tile_geometry[i].bounds);
    }
    assert forall|i: int| 0 <= i < patch_items.len() implies bbox_valid(
        (#[trigger] patch_items[i]).field("bbox"@),
    ) by {
        let corners = patch_geometry[i];
        assert(equal_document(patch_items[i], written_patches[i]));
        lemma_patch_fields(plan.mosaics()[i], corners, stride);
        lemma_equal_bounds(patch_items[i], written_patches[i], corners.bounds());
        law_spanned_bounds_are_valid(corners.first, corners.last);
    }
    law_prepared_dataset_is_valid(plan, tile_geometry, patch_geometry, stamp, dataset, present);
}

/// With single tiles among the sizes and a stride of one, every image can be rendered: the mosaic
/// that consists of it alone shows its file.
pub proof fn law_native_patch_shows_its_tile(
    plan: DatasetPlan,
    tile_geometry: Seq<TileGeometry>,
    patch_geometry: Seq<PatchGeometry>,
    tiles: JsonView,
    patches: JsonView,
    k: int,
)
    requires
        plan.wf(),
        tile_geometry.len() == plan.images().len(),
        patch_geometry.len() == plan.mosaics().len(),
        same_document(tiles, JsonView::List(tile_documents(plan.images(), tile_geometry))),
        same_document(
            patches,
            JsonView::List(
                patch_documents(plan.mosaics(), patch_geometry, plan.settings().stride),
            ),
        ),
        tiles_distinct(plan.images()),
        plan.mosaic_sizes().contains(1),
        plan.settings().stride == 1,
        0 <= k < plan.images().len(),
    ensures
        patch_image(
            patches,
            tiles,
            patch_name(
                plan.images()[k].root,
                plan.images()[k].capture,
                plan.images()[k].tile,
                1,
            ),
        ) == Ok::<Seq<char>, RenderFault>(plan.images()[k].path),
{
    let images = plan.images();
    let mosaics = plan.mosaics();
    let image = images[k];
    let tile_items = items_of(tiles);
    let patch_items = items_of(patches);
    let written_tiles = tile_documents(images, tile_geometry);
    let written_patches = patch_documents(mosaics, patch_geometry, 1);
    plan.lemma_settings();
    lemma_read_back(tiles, written_tiles);
    lemma_read_back(patches, written_patches);
    assert forall|i: int| 0 <= i < tile_items.len() implies (#[trigger] tile_items[i]).field_text(
        "tile_id"@,
    ) == Some(images[i].id()) && tile_items[i].field_text("path"@) == Some(images[i].path) by {
        assert(same_document(tile_items[i], written_tiles[i]));
        lemma_tile_fields(images[i], tile_geometry[i]);
        lemma_same_field(tile_items[i], written_tiles[i], "tile_id"@);
        lemma_same_field(tile_items[i], written_tiles[i], "path"@);
    }
    assert forall|i: int| 0 <= i < patch_items.len() implies (#[trigger] patch_items[i]).field_text(
        "patch_id"@,
    ) == Some(mosaics[i].id()) by {
        assert(same_document(patch_items[i], written_patches[i]));
        lemma_patch_fields(mosaics[i], patch_geometry[i], 1);
        lemma_same_field(patch_items[i], written_patches[i], "patch_id"@);
    }
    law_native_patches(images, plan.mosaic_sizes(), k);
    law_patch_ids_distinct(images, plan.mosaic_sizes(), 1);
    let wanted = PatchView {
        root: image.root,
        capture: image.capture,
        tile: image.tile,
        size: 1,
        sources: seq![image.id()],
    };
    let m = choose|m: int| 0 <= m < mosaics.len() && mosaics[m] == wanted;
    assert forall|i: int| 0 <= i < m implies (#[trigger] patch_items[i]).field_text("patch_id"@)
        != patch_items[m].field_text("patch_id"@) by {
        assert(mosaics[i].id() != mosaics[m].id());
    }
    lemma_first_named(patch_items, "patch_id"@, m);
    assert(same_document(patch_items[m], written_patches[m]));
    lemma_patch_fields(mosaics[m], patch_geometry[m], 1);
    let list = wanted.sources.map_values(|text: Seq<char>| JsonView::Text(text));
    assert(list =~= seq![JsonView::Text(image.id())]);
    assert(flat(texts_view(wanted.sources)));
    lemma_same_field(patch_items[m], written_patches[m], "source_tile_ids"@);
    assert forall|i: int| 0 <= i < k implies (#[trigger] tile_items[i]).field_text("tile_id"@)
        != tile_items[k].field_text("tile_id"@) by {
        assert(images[i].id() != images[k].id());
    }
    lemma_first_named(tile_items, "tile_id"@, k);
}

/// Validation of a prepared dataset counts as many references as there are images under `tiles`,
/// and as many queries as there are images under `drone-view`.
pub proof fn law_roles_are_counted(
    tiles: Seq<TileView>,
    geometry: Seq<TileGeometry>,
    document: JsonView,
)
    requires
        geometry.len() == tiles.len(),
        same_document(document, JsonView::List(tile_documents(tiles, geometry))),
    ensures
        role_count(items_of(document), "reference"@) == tiles.filter(
            |tile: TileView| tile.root == ImageRoot::Tiles,
        ).len(),
        role_count(items_of(document), "query"@) == tiles.filter(
            |tile: TileView| tile.root == ImageRoot::DroneView,
        ).len(),
{
    let items = items_of(document);
    let written = tile_documents(tiles, geometry);
    lemma_read_back(document, written);
    if tiles.len() > 0 {
        law_tile_records(tiles, geometry, 0);
    }
    assert forall|i: int| 0 <= i < tiles.len() implies (#[trigger] items[i]).field_text("role"@)
        == Some(
        match tiles[i].root {
            ImageRoot::Tiles => "reference"@,
            ImageRoot::DroneView => "query"@,
        },
    ) by {
        law_tile_records(tiles, geometry, i);
        assert(same_document(items[i], written[i]));
        lemma_same_field(items[i], written[i], "role"@);
    }
    lemma_roles_counted(items, tiles);
}

proof fn lemma_roles_counted(items: Seq<JsonView>, tiles: Seq<TileView>)
    requires
        items.len() == tiles.len(),
        forall|i: int|
            0 <= i < tiles.len() ==> (#[trigger] items[i]).field_text("role"@) == Some(
                match tiles[i].root {
                    ImageRoot::Tiles => "reference"@,
                    ImageRoot::DroneView => "query"@,
                },
            ),
    ensures
        role_count(items, "reference"@) == tiles.filter(
            |tile: TileView| tile.root == ImageRoot::Tiles,
        ).len(),
        role_count(items, "query"@) == tiles.filter(
            |tile: TileView| tile.root == ImageRoot::DroneView,
        ).len(),
    decreases tiles.len(),
{
    reveal(Seq::filter);
    reveal_strlit("reference");
    reveal_strlit("query");
    assert("reference"@.len() == 9 && "query"@.len() == 5);
    if tiles.len() > 0 {
        let fewer = items.drop_last();
        assert forall|i: int| 0 <= i < fewer.len() implies (#[trigger] fewer[i]).field_text(
            "role"@,
        ) == Some(
            match tiles.drop_last()[i].root {
                ImageRoot::Tiles => "reference"@,
                ImageRoot::DroneView => "query"@,
            },
        ) by {
            assert(fewer[i] == items[i]);
        }
        lemma_roles_counted(fewer, tiles.drop_last());
        assert(items[items.len() - 1] == items.last());
    }
}

} // verus!
