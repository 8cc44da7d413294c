//! The preparation of a dataset from source images.
use crate::discover::{TileRecord, TileView, tile_views};
use crate::ids::{ImageRoot, join_path, joined};
use crate::json::{Json, JsonView, field_views, json_views, put};
use crate::manifest::{
    PatchGeometry, TileGeometry, count_view, counts_json, counts_view, patch_document, patch_json,
    patch_quality, patch_quality_json, place_document, place_json, roots_json, roots_view,
    texts_json, texts_view, tile_document, tile_json, tile_quality, tile_quality_json,
    variant_document, variant_json,
};
use crate::options::{
    PrepareOptions, PrepareOptionsError, prepare_options_fault, validate_prepare_options,
};
use crate::order::{add_number, sorted_distinct};
use crate::patches::{
    Patch, PatchView, build_patches, dataset_patches, group_of, law_patches_are_sound,
    law_wanted_sizes, on_stride, patch_views, resolve_patch_sizes, sound_patch, wanted_sizes,
};
use crate::places::{
    Place, PlaceView, build_places, dataset_places, first_at, law_tiles_are_placed, patch_ids_at,
    place_keys, place_of, place_views,
};
use crate::text::texts;
use crate::tile::{TILE_SIZE, Tile};
use vstd::prelude::*;
use vstd::string::StringExecFns;

verus! {

/// What was prepared, and where.
#[derive(Debug, Clone, PartialEq, Eq)]
pub struct PrepareReport {
    pub tiles: usize,
    pub patches: usize,
    pub variants: usize,
    pub path: String,
}

/// The circumstances of a preparation.
#[derive(Debug)]
pub struct DatasetStamp {
    /// The version of the program.
    pub version: String,
    /// The time in seconds since the start of 1970.
    pub created_at: u64,
    /// The command line.
    pub command: String,
}

/// What the circumstances are.
pub struct StampView {
    pub version: Seq<char>,
    pub created_at: u64,
    pub command: Seq<char>,
}

impl View for DatasetStamp {
    type V = StampView;

    open spec fn view(&self) -> StampView {
        StampView {
            version: self.version@,
            created_at: self.created_at,
            command: self.command@,
        }
    }
}

/// Which images, mosaics and places a dataset is made of.
#[derive(Debug)]
pub struct DatasetPlan {
    options: PrepareOptions,
    tiles: Vec<TileRecord>,
    sizes: Vec<u32>,
    patches: Vec<Patch>,
    places: Vec<Place>,
}

impl DatasetPlan {
    /// What the dataset is prepared with.
    pub closed spec fn settings(self) -> PrepareOptions {
        self.options
    }

    /// The images.
    pub closed spec fn images(self) -> Seq<TileView> {
        tile_views(self.tiles@)
    }

    /// The sizes of the mosaics.
    pub closed spec fn mosaic_sizes(self) -> Seq<u32> {
        self.sizes@
    }

    /// The mosaics: those that the images make.
    pub open spec fn mosaics(self) -> Seq<PatchView> {
        dataset_patches(self.images(), self.mosaic_sizes(), self.settings().stride)
    }

    /// The places: those that the images show.
    pub open spec fn sites(self) -> Seq<PlaceView> {
        dataset_places(self.images(), self.mosaics())
    }

    /// The lists of the plan belong together.
    pub closed spec fn wf(self) -> bool {
        &&& prepare_options_fault(self.options) is None
        &&& self.sizes@.no_duplicates()
        &&& patch_views(self.patches@) == dataset_patches(
            tile_views(self.tiles@),
            self.sizes@,
            self.options.stride,
        )
        &&& place_views(self.places@) == dataset_places(
            tile_views(self.tiles@),
            patch_views(self.patches@),
        )
    }

    /// The options that the plan was made with can be used, and no size is there twice.
    pub proof fn lemma_settings(self)
        requires
            self.wf(),
        ensures
            prepare_options_fault(self.settings()) is None,
            self.mosaic_sizes().no_duplicates(),
    {
    }

    /// The images.
    pub fn tiles(&self) -> (tiles: &[TileRecord])
        ensures
            tile_views(tiles@) == self.images(),
    {
        self.tiles.as_slice()
    }

    /// The mosaics.
    pub fn patches(&self) -> (patches: &[Patch])
        requires
            self.wf(),
        ensures
            patch_views(patches@) == self.mosaics(),
    {
        self.patches.as_slice()
    }

    /// The output directory.
    pub fn out(&self) -> (out: &str)
        ensures
            out@ == self.settings().out@,
    {
        self.options.out.as_str()
    }
}

/// Every mosaic of a dataset has a side of at least one tile.
proof fn lemma_patch_sizes(patches: Seq<Patch>, tiles: Seq<TileView>, sizes: Seq<u32>, stride: u32)
    requires
        stride >= 1,
        patch_views(patches) == dataset_patches(tiles, sizes, stride),
    ensures
        forall|k: int| 0 <= k < patches.len() ==> (#[trigger] patches[k]).size >= 1,
{
    assert forall|k: int| 0 <= k < patches.len() implies (#[trigger] patches[k]).size >= 1 by {
        assert(patch_views(patches)[k] == patches[k]@);
        law_patches_are_sound(tiles, sizes, stride, k);
    }
}

/// Plans a dataset of the given images. `estimates` holds, for each image whose ground width is
/// positive, the number of its widths that is nearest to 400 meters.
pub fn plan_dataset(
    options: PrepareOptions,
    tiles: Vec<TileRecord>,
    estimates: &[u32],
) -> (result: Result<DatasetPlan, PrepareOptionsError>)
    ensures
        match prepare_options_fault(options) {
            Some(error) => result == Err::<DatasetPlan, PrepareOptionsError>(error),
            None => {
                &&& result matches Ok(plan)
                &&& plan.wf()
                &&& plan.settings() == options
                &&& plan.images() == tile_views(tiles@)
                &&& plan.mosaic_sizes() == wanted_sizes(
                    options.patch_sizes@,
                    estimates@,
                    options.auto400m,
                )
            },
        },
{
    match validate_prepare_options(&options) {
        Ok(()) => {},
        Err(error) => {
            return Err(error);
        },
    }
    let sizes = resolve_patch_sizes(options.patch_sizes.as_slice(), estimates, options.auto400m);
    let patches = build_patches(tiles.as_slice(), sizes.as_slice(), options.stride);
    proof {
        lemma_patch_sizes(patches@, tile_views(tiles@), sizes@, options.stride);
        law_wanted_sizes(options.patch_sizes@, estimates@, options.auto400m);
    }
    let places = build_places(tiles.as_slice(), patches.as_slice());
    Ok(DatasetPlan { options, tiles, sizes, patches, places })
}

/// The records of images.
pub open spec fn tile_documents(tiles: Seq<TileView>, geometry: Seq<TileGeometry>) -> Seq<
    JsonView,
> {
    Seq::new(tiles.len(), |i: int| tile_document(tiles[i], geometry[i]))
}

/// The records of mosaics.
pub open spec fn patch_documents(
    patches: Seq<PatchView>,
    geometry: Seq<PatchGeometry>,
    stride: u32,
) -> Seq<JsonView> {
    Seq::new(patches.len(), |i: int| patch_document(patches[i], geometry[i], stride))
}

/// The records of one mosaic under each rotation.
pub open spec fn rotated_documents(patch: PatchView, rotations: Seq<u32>) -> Seq<JsonView> {
    Seq::new(rotations.len(), |i: int| variant_document(patch, rotations[i]))
}

/// The records of all mosaics under each rotation, mosaic by mosaic.
pub open spec fn variant_documents(patches: Seq<PatchView>, rotations: Seq<u32>) -> Seq<JsonView>
    decreases patches.len(),
{
    if patches.len() == 0 {
        Seq::empty()
    } else {
        variant_documents(patches.drop_last(), rotations) + rotated_documents(
            patches.last(),
            rotations,
        )
    }
}

/// The records of places. A place lies where its first image lies.
pub open spec fn place_documents(places: Seq<PlaceView>, geometry: Seq<TileGeometry>) -> Seq<
    JsonView,
> {
    Seq::new(places.len(), |i: int| place_document(places[i], geometry[places[i].first]))
}

/// The verdicts on images and mosaics.
pub open spec fn quality_document(tiles: Seq<TileView>, patches: Seq<PatchView>) -> JsonView {
    JsonView::Record(
        seq![
            ("tiles"@, JsonView::List(tiles.map_values(|tile: TileView| tile_quality(tile)))),
            (
                "patches"@,
                JsonView::List(patches.map_values(|patch: PatchView| patch_quality(patch))),
            ),
        ],
    )
}

fn tiles_json(tiles: &[TileRecord], geometry: &[TileGeometry]) -> (json: Json)
    requires
        tiles@.len() == geometry@.len(),
    ensures
        json@ == JsonView::List(tile_documents(tile_views(tiles@), geometry@)),
{
    let ghost views = tile_documents(tile_views(tiles@), geometry@);
    let mut items: Vec<Json> = Vec::new();
    let mut i: usize = 0;
    assert(json_views(items@) =~= views.take(0));
    while i < tiles.len()
        invariant
            0 <= i <= tiles@.len(),
            tiles@.len() == geometry@.len(),
            views == tile_documents(tile_views(tiles@), geometry@),
            json_views(items@) == views.take(i as int),
        decreases tiles@.len() - i,
    {
        let ghost before = items@;
        items.push(tile_json(&tiles[i], &geometry[i]));
        assert(tile_views(tiles@)[i as int] == tiles@[i as int]@);
        assert(json_views(items@) =~= json_views(before).push(views[i as int]));
        assert(views.take(i + 1) =~= views.take(i as int).push(views[i as int]));
        i = i + 1;
    }
    assert(views.take(i as int) == views);
    Json::list(items)
}

fn patches_json(patches: &[Patch], geometry: &[PatchGeometry], stride: u32) -> (json: Json)
    requires
        patches@.len() == geometry@.len(),
        forall|k: int| 0 <= k < patches@.len() ==> (#[trigger] patches@[k]).size >= 1,
    ensures
        json@ == JsonView::List(patch_documents(patch_views(patches@), geometry@, stride)),
{
    let ghost views = patch_documents(patch_views(patches@), geometry@, stride);
    let mut items: Vec<Json> = Vec::new();
    let mut i: usize = 0;
    assert(json_views(items@) =~= views.take(0));
    while i < patches.len()
        invariant
            0 <= i <= patches@.len(),
            patches@.len() == geometry@.len(),
            forall|k: int| 0 <= k < patches@.len() ==> (#[trigger] patches@[k]).size >= 1,
            views == patch_documents(patch_views(patches@), geometry@, stride),
            json_views(items@) == views.take(i as int),
        decreases patches@.len() - i,
    {
        let ghost before = items@;
        items.push(patch_json(&patches[i], &geometry[i], stride));
        assert(patch_views(patches@)[i as int] == patches@[i as int]@);
        assert(json_views(items@) =~= json_views(before).push(views[i as int]));
        assert(views.take(i + 1) =~= views.take(i as int).push(views[i as int]));
        i = i + 1;
    }
    assert(views.take(i as int) == views);
    Json::list(items)
}

fn variants_json(patches: &[Patch], rotations: &[u32]) -> (items: Vec<Json>)
    requires
        forall|k: int| 0 <= k < patches@.len() ==> (#[trigger] patches@[k]).size >= 1,
    ensures
        json_views(items@) == variant_documents(patch_views(patches@), rotations@),
{
    let ghost views = patch_views(patches@);
    let mut items: Vec<Json> = Vec::new();
    let mut i: usize = 0;
    assert(json_views(items@) =~= variant_documents(views.take(0), rotations@));
    while i < patches.len()
        invariant
            0 <= i <= patches@.len(),
            forall|k: int| 0 <= k < patches@.len() ==> (#[trigger] patches@[k]).size >= 1,
            views == patch_views(patches@),
            json_views(items@) == variant_documents(views.take(i as int), rotations@),
        decreases patches@.len() - i,
    {
        let ghost done = json_views(items@);
        let ghost row = rotated_documents(patches@[i as int]@, rotations@);
        assert(views[i as int] == patches@[i as int]@);
        assert(views.take(i + 1).drop_last() == views.take(i as int));
        let mut k: usize = 0;
        assert(done + row.take(0) =~= done);
        while k < rotations.len()
            invariant
                0 <= k <= rotations@.len(),
                0 <= i < patches@.len(),
                patches@[i as int].size >= 1,
                row == rotated_documents(patches@[i as int]@, rotations@),
                json_views(items@) == done + row.take(k as int),
            decreases rotations@.len() - k,
        {
            let ghost before = items@;
            items.push(variant_json(&patches[i], rotations[k]));
            assert(json_views(items@) =~= json_views(before).push(row[k as int]));
            assert(row.take(k + 1) =~= row.take(k as int).push(row[k as int]));
            assert(json_views(items@) =~= done + row.take(k + 1));
            k = k + 1;
        }
        assert(row.take(k as int) == row);
        i = i + 1;
    }
    assert(views.take(i as int) == views);
    items
}

proof fn lemma_first_at(tiles: Seq<TileView>, key: Tile)
    requires
        place_keys(tiles).contains(key),
    ensures
        0 <= first_at(tiles, key) < tiles.len(),
    decreases tiles.len(),
{
    if tiles.len() > 0 {
        if place_keys(tiles.drop_last()).contains(key) {
            lemma_first_at(tiles.drop_last(), key);
        }
    }
}

fn places_json(places: &[Place], geometry: &[TileGeometry]) -> (json: Json)
    requires
        forall|k: int| 0 <= k < places@.len() ==> (#[trigger] places@[k]).first < geometry@.len(),
    ensures
        json@ == JsonView::List(place_documents(place_views(places@), geometry@)),
{
    let ghost views = place_documents(place_views(places@), geometry@);
    let mut items: Vec<Json> = Vec::new();
    let mut i: usize = 0;
    assert(json_views(items@) =~= views.take(0));
    while i < places.len()
        invariant
            0 <= i <= places@.len(),
            forall|k: int|
                0 <= k < places@.len() ==> (#[trigger] places@[k]).first < geometry@.len(),
            views == place_documents(place_views(places@), geometry@),
            json_views(items@) == views.take(i as int),
        decreases places@.len() - i,
    {
        let ghost before = items@;
        let first: usize = places[i].first;
        items.push(place_json(&places[i], &geometry[first]));
        assert(place_views(places@)[i as int] == places@[i as int]@);
        assert(json_views(items@) =~= json_views(before).push(views[i as int]));
        assert(views.take(i + 1) =~= views.take(i as int).push(views[i as int]));
        i = i + 1;
    }
    assert(views.take(i as int) == views);
    Json::list(items)
}

/// Judges images and mosaics by what is cheap to know of them.
pub fn build_quality(tiles: &[TileRecord], patches: &[Patch]) -> (json: Json)
    requires
        forall|k: int| 0 <= k < patches@.len() ==> (#[trigger] patches@[k]).size >= 1,
    ensures
        json@ == quality_document(tile_views(tiles@), patch_views(patches@)),
{
    let ghost tile_verdicts = tile_views(tiles@).map_values(|tile: TileView| tile_quality(tile));
    let ghost patch_verdicts = patch_views(patches@).map_values(
        |patch: PatchView| patch_quality(patch),
    );
    let mut tile_items: Vec<Json> = Vec::new();
    let mut i: usize = 0;
    assert(json_views(tile_items@) =~= tile_verdicts.take(0));
    while i < tiles.len()
        invariant
            0 <= i <= tiles@.len(),
            tile_verdicts == tile_views(tiles@).map_values(|tile: TileView| tile_quality(tile)),
            json_views(tile_items@) == tile_verdicts.take(i as int),
        decreases tiles@.len() - i,
    {
        let ghost before = tile_items@;
        tile_items.push(tile_quality_json(&tiles[i]));
        assert(tile_views(tiles@)[i as int] == tiles@[i as int]@);
        assert(json_views(tile_items@) =~= json_views(before).push(tile_verdicts[i as int]));
        assert(tile_verdicts.take(i + 1) =~= tile_verdicts.take(i as int).push(
            tile_verdicts[i as int],
        ));
        i = i + 1;
    }
    assert(tile_verdicts.take(i as int) == tile_verdicts);
    let mut patch_items: Vec<Json> = Vec::new();
    let mut k: usize = 0;
    assert(json_views(patch_items@) =~= patch_verdicts.take(0));
    while k < patches.len()
        invariant
            0 <= k <= patches@.len(),
            forall|n: int| 0 <= n < patches@.len() ==> (#[trigger] patches@[n]).size >= 1,
            patch_verdicts == patch_views(patches@).map_values(
                |patch: PatchView| patch_quality(patch),
            ),
            json_views(patch_items@) == patch_verdicts.take(k as int),
        decreases patches@.len() - k,
    {
        let ghost before = patch_items@;
        patch_items.push(patch_quality_json(&patches[k]));
        assert(patch_views(patches@)[k as int] == patches@[k as int]@);
        assert(json_views(patch_items@) =~= json_views(before).push(patch_verdicts[k as int]));
        assert(patch_verdicts.take(k + 1) =~= patch_verdicts.take(k as int).push(
            patch_verdicts[k as int],
        ));
        k = k + 1;
    }
    assert(patch_verdicts.take(k as int) == patch_verdicts);
    let mut fields: Vec<(String, Json)> = Vec::new();
    assert(field_views(fields@) =~= Seq::<(Seq<char>, JsonView)>::empty());
    put(&mut fields, "tiles", Json::list(tile_items));
    put(&mut fields, "patches", Json::list(patch_items));
    assert(field_views(fields@) =~= quality_document(
        tile_views(tiles@),
        patch_views(patches@),
    )->Record_0);
    Json::record(fields)
}

/// An image lies in the directory.
pub open spec fn has_root(tiles: Seq<TileView>, root: ImageRoot) -> bool {
    exists|i: int| 0 <= i < tiles.len() && (#[trigger] tiles[i]).root == root
}

/// The directories that images lie in, in the order of their names.
pub open spec fn roots_found(tiles: Seq<TileView>) -> Seq<ImageRoot> {
    let drone = if has_root(tiles, ImageRoot::DroneView) {
        seq![ImageRoot::DroneView]
    } else {
        Seq::empty()
    };
    if has_root(tiles, ImageRoot::Tiles) {
        drone.push(ImageRoot::Tiles)
    } else {
        drone
    }
}

/// The zoom levels of the images, in rising order.
pub open spec fn zooms_found(tiles: Seq<TileView>) -> Seq<u32> {
    sorted_distinct(tiles.map_values(|tile: TileView| tile.tile.z))
}

fn survey_roots(tiles: &[TileRecord]) -> (roots: Vec<ImageRoot>)
    ensures
        roots@ == roots_found(tile_views(tiles@)),
{
    let ghost views = tile_views(tiles@);
    let mut drone = false;
    let mut tile = false;
    let mut i: usize = 0;
    while i < tiles.len()
        invariant
            0 <= i <= tiles@.len(),
            views == tile_views(tiles@),
            drone <==> has_root(views.take(i as int), ImageRoot::DroneView),
            tile <==> has_root(views.take(i as int), ImageRoot::Tiles),
        decreases tiles@.len() - i,
    {
        let ghost front = views.take(i as int);
        let ghost next = views.take(i + 1);
        let ghost drone_before = drone;
        let ghost tile_before = tile;
        match tiles[i].root {
            ImageRoot::DroneView => {
                drone = true;
            },
            ImageRoot::Tiles => {
                tile = true;
            },
        }
        proof {
            assert(next[i as int] == tiles@[i as int]@);
            assert forall|root: ImageRoot|
                has_root(next, root) <==> has_root(front, root) || tiles@[i as int].root
                    == root by {
                if has_root(front, root) {
                    let k = choose|k: int| 0 <= k < front.len() && (#[trigger] front[k]).root == root;
                    assert(next[k].root == root);
                }
                if tiles@[i as int].root == root {
                    assert(next[i as int].root == root);
                }
                if has_root(next, root) {
                    let k = choose|k: int| 0 <= k < next.len() && (#[trigger] next[k]).root == root;
                    if k < i {
                        assert(front[k].root == root);
                    }
                }
            }
            assert(has_root(next, ImageRoot::DroneView) <==> drone);
            assert(has_root(next, ImageRoot::Tiles) <==> tile);
        }
        i = i + 1;
    }
    assert(views.take(i as int) == views);
    let mut roots: Vec<ImageRoot> = Vec::new();
    if drone {
        roots.push(ImageRoot::DroneView);
    }
    if tile {
        roots.push(ImageRoot::Tiles);
    }
    assert(roots@ =~= roots_found(views));
    roots
}

fn survey_zooms(tiles: &[TileRecord]) -> (zooms: Vec<u32>)
    ensures
        zooms@ == zooms_found(tile_views(tiles@)),
{
    let ghost levels = tile_views(tiles@).map_values(|tile: TileView| tile.tile.z);
    let mut zooms: Vec<u32> = Vec::new();
    let mut i: usize = 0;
    while i < tiles.len()
        invariant
            0 <= i <= tiles@.len(),
            levels == tile_views(tiles@).map_values(|tile: TileView| tile.tile.z),
            zooms@ == sorted_distinct(levels.take(i as int)),
        decreases tiles@.len() - i,
    {
        assert(levels.take(i + 1).drop_last() == levels.take(i as int));
        assert(levels[i as int] == tiles@[i as int].tile.z);
        add_number(&mut zooms, tiles[i].tile.z);
        i = i + 1;
    }
    assert(levels.take(i as int) == levels);
    zooms
}

/// How the paths of images in a directory are made.
pub open spec fn root_pattern(root: ImageRoot) -> Seq<char> {
    root.directory() + "/{z}/{x}/{y}.{jpg,jpeg,png,webp}"@
}

fn root_patterns(roots: &[ImageRoot]) -> (patterns: Vec<String>)
    ensures
        texts(patterns@) == roots@.map_values(|root: ImageRoot| root_pattern(root)),
{
    let ghost views = roots@.map_values(|root: ImageRoot| root_pattern(root));
    let mut patterns: Vec<String> = Vec::new();
    let mut i: usize = 0;
    assert(texts(patterns@) =~= views.take(0));
    while i < roots.len()
        invariant
            0 <= i <= roots@.len(),
            views == roots@.map_values(|root: ImageRoot| root_pattern(root)),
            texts(patterns@) == views.take(i as int),
        decreases roots@.len() - i,
    {
        let ghost before = patterns@;
        let mut pattern = roots[i].name().to_owned();
        pattern.append("/{z}/{x}/{y}.{jpg,jpeg,png,webp}");
        patterns.push(pattern);
        assert(texts(patterns@) =~= texts(before).push(views[i as int]));
        assert(views.take(i + 1) =~= views.take(i as int).push(views[i as int]));
        i = i + 1;
    }
    assert(views.take(i as int) == views);
    patterns
}

/// The extensions of source images, with their dots.
pub const SUPPORTED_IMAGE_EXTENSIONS: [&'static str; 4] = [".jpg", ".jpeg", ".png", ".webp"];

/// The extensions of source images, with their dots.
pub open spec fn extensions_with_dots() -> Seq<Seq<char>> {
    seq![".jpg"@, ".jpeg"@, ".png"@, ".webp"@]
}

fn extension_list() -> (extensions: Vec<String>)
    ensures
        texts(extensions@) == extensions_with_dots(),
{
    let dotted = SUPPORTED_IMAGE_EXTENSIONS;
    let extensions = vec![
        dotted[0].to_owned(),
        dotted[1].to_owned(),
        dotted[2].to_owned(),
        dotted[3].to_owned(),
    ];
    assert(texts(extensions@) =~= extensions_with_dots());
    extensions
}

/// How much a dataset holds.
pub open spec fn totals_document(
    tiles: nat,
    patches: nat,
    variants: nat,
    places: nat,
) -> JsonView {
    JsonView::Record(
        seq![
            ("tiles"@, count_view(tiles)),
            ("patches"@, count_view(patches)),
            ("variants"@, count_view(variants)),
            ("places"@, count_view(places)),
        ],
    )
}

fn totals_json(tiles: usize, patches: usize, variants: usize, places: usize) -> (json: Json)
    ensures
        json@ == totals_document(tiles as nat, patches as nat, variants as nat, places as nat),
{
    let mut fields: Vec<(String, Json)> = Vec::new();
    assert(field_views(fields@) =~= Seq::<(Seq<char>, JsonView)>::empty());
    put(&mut fields, "tiles", Json::unsigned(tiles as u64));
    put(&mut fields, "patches", Json::unsigned(patches as u64));
    put(&mut fields, "variants", Json::unsigned(variants as u64));
    put(&mut fields, "places", Json::unsigned(places as u64));
    assert(field_views(fields@) =~= totals_document(
        tiles as nat,
        patches as nat,
        variants as nat,
        places as nat,
    )->Record_0);
    Json::record(fields)
}

/// The settings of a dataset and what it holds.
pub open spec fn config_document(plan: DatasetPlan, stamp: StampView) -> JsonView {
    let options = plan.settings();
    let roots = roots_found(plan.images());
    JsonView::Record(
        seq![
            ("images_modified"@, JsonView::Bool(false)),
            ("descriptors_computed"@, JsonView::Bool(false)),
            ("indexes_built"@, JsonView::Bool(false)),
            ("generated_images_default"@, JsonView::Bool(false)),
            ("schema_version"@, JsonView::Text("1.0"@)),
            ("geodot_version"@, JsonView::Text(stamp.version)),
            ("created_at"@, count_view(stamp.created_at as nat)),
            ("command"@, JsonView::Text(stamp.command)),
            ("output_directory"@, JsonView::Text(options.out@)),
            ("profile"@, JsonView::Text("aerial-vpr-default"@)),
            (
                "tile_roots"@,
                texts_view(roots.map_values(|root: ImageRoot| root_pattern(root))),
            ),
            ("mode"@, JsonView::Text("virtual"@)),
            ("tile_size"@, count_view(TILE_SIZE as nat)),
            ("image_roots_detected"@, roots_view(roots)),
            ("supported_image_extensions"@, texts_view(extensions_with_dots())),
            ("zoom_levels_detected"@, counts_view(zooms_found(plan.images()))),
            ("patch_sizes"@, counts_view(plan.mosaic_sizes())),
            ("stride"@, count_view(options.stride as nat)),
            ("rotations"@, counts_view(options.rotations@)),
            ("auto400m"@, JsonView::Bool(options.auto400m)),
            ("circular_crops_virtual"@, JsonView::Bool(true)),
            ("appearance"@, texts_view(Seq::empty())),
            (
                "counts"@,
                totals_document(
                    plan.images().len(),
                    plan.mosaics().len(),
                    variant_documents(plan.mosaics(), options.rotations@).len(),
                    plan.sites().len(),
                ),
            ),
        ],
    )
}

/// The documents of a dataset.
#[derive(Debug)]
pub struct PreparedDataset {
    pub tiles: Json,
    pub patches: Json,
    pub variants: Json,
    pub places: Json,
    pub quality: Json,
    pub dataset: Json,
    pub report: PrepareReport,
}

/// Makes the documents of a planned dataset. The geometry is that of its images and its mosaics,
/// in their order.
pub fn prepare_dataset(
    plan: &DatasetPlan,
    tile_geometry: &[TileGeometry],
    patch_geometry: &[PatchGeometry],
    stamp: &DatasetStamp,
) -> (prepared: PreparedDataset)
    requires
        plan.wf(),
        tile_geometry@.len() == plan.images().len(),
        patch_geometry@.len() == plan.mosaics().len(),
    ensures
        prepared.tiles@ == JsonView::List(tile_documents(plan.images(), tile_geometry@)),
        prepared.patches@ == JsonView::List(
            patch_documents(plan.mosaics(), patch_geometry@, plan.settings().stride),
        ),
        prepared.variants@ == JsonView::List(
            variant_documents(plan.mosaics(), plan.settings().rotations@),
        ),
        prepared.places@ == JsonView::List(place_documents(plan.sites(), tile_geometry@)),
        prepared.quality@ == quality_document(plan.images(), plan.mosaics()),
        prepared.dataset@ == config_document(*plan, stamp@),
        prepared.report.tiles == plan.images().len(),
        prepared.report.patches == plan.mosaics().len(),
        prepared.report.variants == variant_documents(
            plan.mosaics(),
            plan.settings().rotations@,
        ).len(),
        prepared.report.path@ == joined(plan.settings().out@, "vpr"@),
{
    let options = &plan.options;
    let tiles = plan.tiles.as_slice();
    let patches = plan.patches.as_slice();
    let places = plan.places.as_slice();
    proof {
        lemma_patch_sizes(patches@, plan.images(), plan.sizes@, options.stride);
        assert(place_views(places@) == plan.sites());
        assert forall|k: int| 0 <= k < places@.len() implies (#[trigger] places@[k]).first
            < tile_geometry@.len() by {
            let key = place_keys(plan.images())[k];
            assert(place_views(places@)[k] == places@[k]@);
            assert(plan.sites()[k] == place_of(plan.images(), plan.mosaics(), key));
            assert(place_keys(plan.images()).contains(key));
            lemma_first_at(plan.images(), key);
        }
    }
    let variants = variants_json(patches, options.rotations.as_slice());
    let report = PrepareReport {
        tiles: tiles.len(),
        patches: patches.len(),
        variants: variants.len(),
        path: join_path(options.out.as_str(), "vpr"),
    };
    let roots = survey_roots(tiles);
    let patterns = root_patterns(roots.as_slice());
    let zooms = survey_zooms(tiles);
    let extensions = extension_list();
    let none: Vec<String> = Vec::new();
    assert(texts(none@) =~= Seq::<Seq<char>>::empty());
    let totals = totals_json(tiles.len(), patches.len(), variants.len(), places.len());
    let mut fields: Vec<(String, Json)> = Vec::new();
    assert(field_views(fields@) =~= Seq::<(Seq<char>, JsonView)>::empty());
    put(&mut fields, "images_modified", Json::Bool(false));
    put(&mut fields, "descriptors_computed", Json::Bool(false));
    put(&mut fields, "indexes_built", Json::Bool(false));
    put(&mut fields, "generated_images_default", Json::Bool(false));
    put(&mut fields, "schema_version", Json::text("1.0"));
    put(&mut fields, "geodot_version", Json::text(stamp.version.as_str()));
    put(&mut fields, "created_at", Json::unsigned(stamp.created_at));
    put(&mut fields, "command", Json::text(stamp.command.as_str()));
    put(&mut fields, "output_directory", Json::text(options.out.as_str()));
    put(&mut fields, "profile", Json::text("aerial-vpr-default"));
    put(&mut fields, "tile_roots", texts_json(patterns.as_slice()));
    put(&mut fields, "mode", Json::text("virtual"));
    put(&mut fields, "tile_size", Json::unsigned(TILE_SIZE as u64));
    put(&mut fields, "image_roots_detected", roots_json(roots.as_slice()));
    put(&mut fields, "supported_image_extensions", texts_json(extensions.as_slice()));
    put(&mut fields, "zoom_levels_detected", counts_json(zooms.as_slice()));
    put(&mut fields, "patch_sizes", counts_json(plan.sizes.as_slice()));
    put(&mut fields, "stride", Json::unsigned(options.stride as u64));
    put(&mut fields, "rotations", counts_json(options.rotations.as_slice()));
    put(&mut fields, "auto400m", Json::Bool(options.auto400m));
    put(&mut fields, "circular_crops_virtual", Json::Bool(true));
    put(&mut fields, "appearance", texts_json(none.as_slice()));
    put(&mut fields, "counts", totals);
    assert(field_views(fields@) =~= config_document(*plan, stamp@)->Record_0);
    PreparedDataset {
        tiles: tiles_json(tiles, tile_geometry),
        patches: patches_json(patches, patch_geometry, options.stride),
        variants: Json::list(variants),
        places: places_json(places, tile_geometry),
        quality: build_quality(tiles, patches),
        dataset: Json::record(fields),
        report,
    }
}

/// There are as many variants as mosaics, times the rotations.
pub proof fn law_variant_count(patches: Seq<PatchView>, rotations: Seq<u32>)
    ensures
        variant_documents(patches, rotations).len() == patches.len() * rotations.len(),
    decreases patches.len(),
{
    let n = rotations.len();
    let m = patches.len() as int;
    if m > 0 {
        law_variant_count(patches.drop_last(), rotations);
        assert(m * n == (m - 1) * n + n) by (nonlinear_arith);
    } else {
        assert(0 * n == 0) by (nonlinear_arith);
    }
}

/// There is one variant for each mosaic and each rotation: the variants of a mosaic follow one
/// another in the order of the rotations, and mosaics keep their order.
pub proof fn law_variants_are_pairs(
    patches: Seq<PatchView>,
    rotations: Seq<u32>,
    i: int,
    j: int,
)
    requires
        0 <= i < patches.len(),
        0 <= j < rotations.len(),
    ensures
        variant_documents(patches, rotations).len() == patches.len() * rotations.len(),
        0 <= i * rotations.len() + j < variant_documents(patches, rotations).len(),
        variant_documents(patches, rotations)[i * rotations.len() + j] == variant_document(
            patches[i],
            rotations[j],
        ),
    decreases patches.len(),
{
    let n = rotations.len() as int;
    let m = patches.len() as int;
    let front = patches.drop_last();
    law_variant_count(patches, rotations);
    law_variant_count(front, rotations);
    assert(0 <= i * n + j < m * n && m * n == (m - 1) * n + n) by (nonlinear_arith)
        requires
            0 <= i < m,
            0 <= j < n,
    ;
    if i < m - 1 {
        law_variants_are_pairs(front, rotations, i, j);
        assert(front[i] == patches[i]);
    } else {
        assert(rotated_documents(patches.last(), rotations)[j] == variant_document(
            patches[i],
            rotations[j],
        ));
    }
}

/// A planned mosaic stands for a complete square of planned images, of one of the planned sizes and
/// on the stride that was asked for.
pub proof fn law_planned_mosaics(plan: DatasetPlan, k: int)
    requires
        plan.wf(),
        0 <= k < plan.mosaics().len(),
    ensures
        sound_patch(plan.images(), plan.mosaics()[k]),
        plan.mosaic_sizes().contains(plan.mosaics()[k].size),
        on_stride(plan.images(), plan.mosaics()[k], plan.settings().stride),
{
    plan.lemma_settings();
    law_patches_are_sound(plan.images(), plan.mosaic_sizes(), plan.settings().stride, k);
}

/// Every planned image is listed at the site with its coordinates.
pub proof fn law_planned_images_have_sites(plan: DatasetPlan, k: int)
    requires
        0 <= k < plan.images().len(),
    ensures
        exists|i: int|
            0 <= i < plan.sites().len() && (#[trigger] plan.sites()[i]).tile
                == plan.images()[k].tile && plan.sites()[i].tile_ids.contains(
                plan.images()[k].id(),
            ),
{
    let tiles = plan.images();
    law_tiles_are_placed(tiles, plan.mosaics(), k);
    let keys = place_keys(tiles);
    let i = choose|i: int| 0 <= i < keys.len() && keys[i] == tiles[k].tile;
    assert(plan.sites()[i] == place_of(tiles, plan.mosaics(), tiles[k].tile));
}

/// Every planned mosaic is listed at the site of its top left tile.
pub proof fn law_planned_mosaics_have_sites(plan: DatasetPlan, k: int)
    requires
        plan.wf(),
        0 <= k < plan.mosaics().len(),
    ensures
        exists|i: int|
            0 <= i < plan.sites().len() && (#[trigger] plan.sites()[i]).tile
                == plan.mosaics()[k].tile && plan.sites()[i].patch_ids.contains(
                plan.mosaics()[k].id(),
            ),
{
    let tiles = plan.images();
    let patches = plan.mosaics();
    let patch = patches[k];
    plan.lemma_settings();
    law_patches_are_sound(tiles, plan.mosaic_sizes(), plan.settings().stride, k);
    let n = choose|n: int|
        0 <= n < tiles.len() && group_of(#[trigger] tiles[n]) == patch.group() && tiles[n].tile.x
            == patch.tile.x && tiles[n].tile.y == patch.tile.y;
    assert(tiles[n].tile == patch.tile);
    law_tiles_are_placed(tiles, patches, n);
    let keys = place_keys(tiles);
    let i = choose|i: int| 0 <= i < keys.len() && keys[i] == patch.tile;
    assert(plan.sites()[i] == place_of(tiles, patches, patch.tile));
    lemma_patch_listed(patches, k);
}

proof fn lemma_patch_listed(patches: Seq<PatchView>, k: int)
    requires
        0 <= k < patches.len(),
    ensures
        patch_ids_at(patches, patches[k].tile).contains(patches[k].id()),
    decreases patches.len(),
{
    let key = patches[k].tile;
    let ids = patch_ids_at(patches, key);
    let front = patches.drop_last();
    if k < front.len() {
        assert(front[k] == patches[k]);
        lemma_patch_listed(front, k);
        let before = patch_ids_at(front, key);
        let n = choose|n: int| 0 <= n < before.len() && before[n] == patches[k].id();
        assert(ids[n] == patches[k].id());
    } else {
        assert(ids[ids.len() - 1] == patches[k].id());
    }
}

} // verus!
