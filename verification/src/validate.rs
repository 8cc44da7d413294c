//! The validation of a prepared dataset.
use crate::discover::{extension_of, image_extension, is_supported_extension, path_extension};
use crate::double::{Double, MINUS_180, MINUS_90, PLUS_180, PLUS_90};
use crate::ids::{join_path, joined};
use crate::json::{
    Json, JsonNumber, JsonView, error_report, error_text, json_of_bytes, json_views,
    parse_json_bytes,
};
use crate::text::{decimal, lower, lower_text, push_decimal, same_text, texts};
use vstd::hash_set::StringHashSet;
use vstd::prelude::*;
use vstd::string::StringExecFns;

verus! {

/// The documents of a prepared dataset as they were read.
#[derive(Debug)]
pub struct Dataset {
    pub tiles: Json,
    pub patches: Json,
    pub variants: Json,
    pub places: Json,
    pub quality: Json,
    pub dataset: Json,
}

/// Why the documents of a dataset could not be read. The number tells which of them.
#[derive(Debug)]
pub enum LoadError {
    Missing(usize),
    Malformed(usize, serde_json::Error),
}

/// The number of documents.
pub const DOCUMENTS: usize = 6;

/// The file of a document under an output directory.
pub open spec fn document_file(out: Seq<char>, i: int) -> Seq<char> {
    let root = joined(out, "vpr"@);
    if i == 0 {
        joined(joined(root, "manifest"@), "tiles.json"@)
    } else if i == 1 {
        joined(joined(root, "manifest"@), "patches.json"@)
    } else if i == 2 {
        joined(joined(root, "manifest"@), "variants.json"@)
    } else if i == 3 {
        joined(joined(root, "manifest"@), "places.json"@)
    } else if i == 4 {
        joined(joined(root, "manifest"@), "quality.json"@)
    } else {
        joined(joined(root, "config"@), "dataset.json"@)
    }
}

/// The files of the documents under an output directory, in the order in which they are read.
pub fn document_files(out: &str) -> (files: Vec<String>)
    ensures
        files@.len() == DOCUMENTS,
        forall|i: int| 0 <= i < DOCUMENTS ==> (#[trigger] files@[i])@ == document_file(out@, i),
{
    let root = join_path(out, "vpr");
    let manifest = join_path(root.as_str(), "manifest");
    let config = join_path(root.as_str(), "config");
    vec![
        join_path(manifest.as_str(), "tiles.json"),
        join_path(manifest.as_str(), "patches.json"),
        join_path(manifest.as_str(), "variants.json"),
        join_path(manifest.as_str(), "places.json"),
        join_path(manifest.as_str(), "quality.json"),
        join_path(config.as_str(), "dataset.json"),
    ]
}

/// The document of a file that is there and holds JSON.
pub open spec fn document_of(file: Option<Vec<u8>>) -> Option<JsonView> {
    match file {
        Some(bytes) => match json_of_bytes(bytes@) {
            Ok(document) => Some(document),
            Err(_) => None,
        },
        None => None,
    }
}

/// The file is there, and this is what is said of it: it is no JSON.
pub open spec fn not_json(file: Option<Vec<u8>>, report: Seq<char>) -> bool {
    file matches Some(bytes) && json_of_bytes(bytes@) == Err::<JsonView, Seq<char>>(report)
}

/// The number of documents that are read before the first fault.
pub open spec fn documents_read(files: Seq<Option<Vec<u8>>>, i: int) -> int
    decreases files.len() - i,
{
    if i < 0 || i >= files.len() || document_of(files[i]) is None {
        i
    } else {
        documents_read(files, i + 1)
    }
}

fn read_document(file: &Option<Vec<u8>>, i: usize) -> (result: Result<Json, LoadError>)
    ensures
        match result {
            Ok(json) => document_of(*file) == Some(json@),
            Err(LoadError::Missing(n)) => n == i && file is None,
            Err(LoadError::Malformed(n, error)) => n == i && not_json(*file, error_report(error)),
        },
{
    match file {
        None => Err(LoadError::Missing(i)),
        Some(bytes) => match parse_json_bytes(bytes.as_slice()) {
            Ok(json) => Ok(json),
            Err(error) => Err(LoadError::Malformed(i, error)),
        },
    }
}

/// Reads the documents of a dataset. `files` holds the contents of its files in order, and nothing
/// for a file that does not exist.
pub fn load_dataset(files: &[Option<Vec<u8>>]) -> (result: Result<Dataset, LoadError>)
    requires
        files@.len() == DOCUMENTS,
    ensures
        match result {
            Ok(dataset) => {
                &&& documents_read(files@, 0) == DOCUMENTS
                &&& document_of(files@[0]) == Some(dataset.tiles@)
                &&& document_of(files@[1]) == Some(dataset.patches@)
                &&& document_of(files@[2]) == Some(dataset.variants@)
                &&& document_of(files@[3]) == Some(dataset.places@)
                &&& document_of(files@[4]) == Some(dataset.quality@)
                &&& document_of(files@[5]) == Some(dataset.dataset@)
            },
            Err(LoadError::Missing(i)) => {
                i == documents_read(files@, 0) && i < DOCUMENTS && files@[i as int] is None
            },
            Err(LoadError::Malformed(i, error)) => {
                &&& i == documents_read(files@, 0)
                &&& i < DOCUMENTS
                &&& not_json(files@[i as int], error_report(error))
            },
        },
{
    reveal_with_fuel(documents_read, 7);
    let tiles = match read_document(&files[0], 0) {
        Ok(json) => json,
        Err(error) => {
            return Err(error);
        },
    };
    let patches = match read_document(&files[1], 1) {
        Ok(json) => json,
        Err(error) => {
            return Err(error);
        },
    };
    let variants = match read_document(&files[2], 2) {
        Ok(json) => json,
        Err(error) => {
            return Err(error);
        },
    };
    let places = match read_document(&files[3], 3) {
        Ok(json) => json,
        Err(error) => {
            return Err(error);
        },
    };
    let quality = match read_document(&files[4], 4) {
        Ok(json) => json,
        Err(error) => {
            return Err(error);
        },
    };
    let dataset = match read_document(&files[5], 5) {
        Ok(json) => json,
        Err(error) => {
            return Err(error);
        },
    };
    Ok(Dataset { tiles, patches, variants, places, quality, dataset })
}

/// The items of a document that is a list; none of any other.
pub open spec fn items_of(document: JsonView) -> Seq<JsonView> {
    match document.list() {
        Some(items) => items,
        None => Seq::empty(),
    }
}

/// The text of a field, or the empty text where there is none.
pub open spec fn text_or_empty(item: JsonView, field: Seq<char>) -> Seq<char> {
    match item.field_text(field) {
        Some(text) => text,
        None => Seq::empty(),
    }
}

/// The text that an item is, or the empty text where it is none.
pub open spec fn item_text(item: JsonView) -> Seq<char> {
    match item.text() {
        Some(text) => text,
        None => Seq::empty(),
    }
}

/// One of the items has the name.
pub open spec fn id_known(items: Seq<JsonView>, field: Seq<char>, id: Seq<char>) -> bool {
    exists|i: int| 0 <= i < items.len() && (#[trigger] items[i]).field_text(field) == Some(id)
}

/// What is wrong with the names of items: those without one, and those with a name that an earlier
/// item has.
pub open spec fn id_errors(kind: Seq<char>, items: Seq<JsonView>, field: Seq<char>) -> Seq<
    Seq<char>,
>
    decreases items.len(),
{
    if items.len() == 0 {
        Seq::empty()
    } else {
        let front = id_errors(kind, items.drop_last(), field);
        match items.last().field_text(field) {
            None => front.push(kind + " missing "@ + field),
            Some(id) => if id_known(items.drop_last(), field, id) {
                front.push("duplicate "@ + kind + " id: "@ + id)
            } else {
                front
            },
        }
    }
}

/// A field holds a west, south, east and north bound on the globe, in order.
pub open spec fn bbox_valid(bbox: Option<JsonView>) -> bool {
    match bbox {
        Some(JsonView::List(items)) => {
            &&& items.len() == 4
            &&& items[0].double() matches Some(west)
            &&& items[1].double() matches Some(south)
            &&& items[2].double() matches Some(east)
            &&& items[3].double() matches Some(north)
            &&& (Double { bits: MINUS_180 }).at_most(west)
            &&& west.below(east)
            &&& east.at_most(Double { bits: PLUS_180 })
            &&& (Double { bits: MINUS_90 }).at_most(south)
            &&& south.below(north)
            &&& north.at_most(Double { bits: PLUS_90 })
        },
        _ => false,
    }
}

/// A field holds a whole number above zero.
pub open spec fn count_positive(value: Option<JsonView>) -> bool {
    match value {
        Some(value) => value.unsigned() matches Some(n) && n > 0,
        None => false,
    }
}

/// An error where a condition fails.
pub open spec fn unless(holds: bool, error: Seq<char>) -> Seq<Seq<char>> {
    if holds {
        Seq::empty()
    } else {
        seq![error]
    }
}

/// What is wrong with an image. `present` tells whether its file exists.
pub open spec fn tile_faults(tile: JsonView, present: bool) -> Seq<Seq<char>> {
    let id = text_or_empty(tile, "tile_id"@);
    let path = text_or_empty(tile, "path"@);
    unless(
        path.len() > 0 && present,
        "missing source image for tile "@ + id + ": "@ + path,
    ) + unless(bbox_valid(tile.field("bbox"@)), "invalid bbox for tile "@ + id) + unless(
        count_positive(tile.field("image_width"@)) && count_positive(tile.field("image_height"@)),
        "invalid image dimensions for tile "@ + id,
    )
}

/// What is wrong with images.
pub open spec fn tile_errors(tiles: Seq<JsonView>, present: Seq<bool>) -> Seq<Seq<char>>
    decreases tiles.len(),
{
    if tiles.len() == 0 {
        Seq::empty()
    } else {
        tile_errors(tiles.drop_last(), present) + tile_faults(
            tiles.last(),
            present[tiles.len() - 1],
        )
    }
}

/// The names of a list that no item has.
pub open spec fn unknown_ids(
    list: Seq<JsonView>,
    items: Seq<JsonView>,
    field: Seq<char>,
    before: Seq<char>,
) -> Seq<Seq<char>>
    decreases list.len(),
{
    if list.len() == 0 {
        Seq::empty()
    } else {
        unknown_ids(list.drop_last(), items, field, before) + unless(
            id_known(items, field, item_text(list.last())),
            before + item_text(list.last()),
        )
    }
}

/// The items of a list field; none where there is no list.
pub open spec fn list_or_empty(item: JsonView, field: Seq<char>) -> Seq<JsonView> {
    match item.field_list(field) {
        Some(items) => items,
        None => Seq::empty(),
    }
}

/// The images that a mosaic is made of, under either name of the field.
pub open spec fn patch_sources(patch: JsonView) -> Option<Seq<JsonView>> {
    match patch.field_list("source_tile_ids"@) {
        Some(items) => Some(items),
        None => patch.field_list("source_tiles"@),
    }
}

/// What is wrong with a mosaic.
pub open spec fn patch_faults(patch: JsonView, tiles: Seq<JsonView>) -> Seq<Seq<char>> {
    let id = text_or_empty(patch, "patch_id"@);
    let sources = match patch_sources(patch) {
        Some(items) => items,
        None => Seq::empty(),
    };
    unless(bbox_valid(patch.field("bbox"@)), "invalid bbox for patch "@ + id) + unknown_ids(
        sources,
        tiles,
        "tile_id"@,
        "patch "@ + id + " references missing tile "@,
    )
}

/// What is wrong with mosaics.
pub open spec fn patch_errors(patches: Seq<JsonView>, tiles: Seq<JsonView>) -> Seq<Seq<char>>
    decreases patches.len(),
{
    if patches.len() == 0 {
        Seq::empty()
    } else {
        patch_errors(patches.drop_last(), tiles) + patch_faults(patches.last(), tiles)
    }
}

/// What is wrong with variants.
pub open spec fn variant_errors(variants: Seq<JsonView>, patches: Seq<JsonView>) -> Seq<Seq<char>>
    decreases variants.len(),
{
    if variants.len() == 0 {
        Seq::empty()
    } else {
        let variant = variants.last();
        let id = text_or_empty(variant, "variant_id"@);
        let patch = text_or_empty(variant, "patch_id"@);
        variant_errors(variants.drop_last(), patches) + unless(
            id_known(patches, "patch_id"@, patch),
            "variant "@ + id + " references missing patch "@ + patch,
        )
    }
}

/// What is wrong with one list of images of a place.
pub open spec fn place_tile_faults(
    place: JsonView,
    field: Seq<char>,
    tiles: Seq<JsonView>,
) -> Seq<Seq<char>> {
    unknown_ids(
        list_or_empty(place, field),
        tiles,
        "tile_id"@,
        "place "@ + text_or_empty(place, "place_id"@) + " "@ + field + " references missing tile "@,
    )
}

/// What is wrong with a place.
pub open spec fn place_faults(
    place: JsonView,
    tiles: Seq<JsonView>,
    patches: Seq<JsonView>,
) -> Seq<Seq<char>> {
    place_tile_faults(place, "tile_ids"@, tiles) + place_tile_faults(
        place,
        "reference_tile_ids"@,
        tiles,
    ) + place_tile_faults(place, "query_tile_ids"@, tiles) + unknown_ids(
        list_or_empty(place, "patch_ids"@),
        patches,
        "patch_id"@,
        "place "@ + text_or_empty(place, "place_id"@) + " references missing patch "@,
    )
}

/// What is wrong with places.
pub open spec fn place_errors(
    places: Seq<JsonView>,
    tiles: Seq<JsonView>,
    patches: Seq<JsonView>,
) -> Seq<Seq<char>>
    decreases places.len(),
{
    if places.len() == 0 {
        Seq::empty()
    } else {
        place_errors(places.drop_last(), tiles, patches) + place_faults(
            places.last(),
            tiles,
            patches,
        )
    }
}

/// What is wrong with a flag that must be off.
pub open spec fn flag_fault(config: JsonView, field: Seq<char>) -> Seq<Seq<char>> {
    let off = match config.field(field) {
        Some(value) => value.bool() == Some(false),
        None => false,
    };
    unless(off, "dataset config "@ + field + " must be false"@)
}

/// What is wrong with the flags of a dataset.
pub open spec fn flag_errors(config: JsonView) -> Seq<Seq<char>> {
    flag_fault(config, "images_modified"@) + flag_fault(config, "descriptors_computed"@)
        + flag_fault(config, "indexes_built"@) + flag_fault(config, "generated_images_default"@)
}

/// All that is wrong with the documents of a dataset. `present` tells which images exist.
pub open spec fn dataset_errors(
    tiles: Seq<JsonView>,
    patches: Seq<JsonView>,
    variants: Seq<JsonView>,
    places: Seq<JsonView>,
    config: JsonView,
    present: Seq<bool>,
) -> Seq<Seq<char>> {
    id_errors("tile"@, tiles, "tile_id"@) + id_errors("patch"@, patches, "patch_id"@) + id_errors(
        "variant"@,
        variants,
        "variant_id"@,
    ) + id_errors("place"@, places, "place_id"@) + tile_errors(tiles, present) + patch_errors(
        patches,
        tiles,
    ) + variant_errors(variants, patches) + place_errors(places, tiles, patches) + flag_errors(
        config,
    )
}

/// How many of the files are images.
pub open spec fn image_count(files: Seq<Seq<char>>) -> nat
    decreases files.len(),
{
    if files.len() == 0 {
        0
    } else {
        image_count(files.drop_last()) + if image_extension(files.last()) is Some {
            1nat
        } else {
            0
        }
    }
}

/// What is doubtful: images among the files that a preparation left.
pub open spec fn generated_warnings(files: Seq<Seq<char>>) -> Seq<Seq<char>> {
    unless(
        image_count(files) == 0,
        "found generated image(s) under vpr: "@ + decimal(image_count(files)),
    )
}

/// How many images have the role.
pub open spec fn role_count(tiles: Seq<JsonView>, role: Seq<char>) -> nat
    decreases tiles.len(),
{
    if tiles.len() == 0 {
        0
    } else {
        role_count(tiles.drop_last(), role) + if tiles.last().field_text("role"@) == Some(role) {
            1nat
        } else {
            0
        }
    }
}


/// How much of what a validation found.
#[derive(Debug, Clone, Copy, PartialEq, Eq, Structural)]
pub struct ValidationCounts {
    pub tiles: usize,
    pub patches: usize,
    pub variants: usize,
    pub places: usize,
    pub query_tiles: usize,
    pub reference_tiles: usize,
    pub warnings: usize,
    pub errors: usize,
}

impl ValidationCounts {
    /// The count of the given name.
    pub open spec fn named(self, name: Seq<char>) -> Option<usize> {
        if name == "tiles"@ {
            Some(self.tiles)
        } else if name == "patches"@ {
            Some(self.patches)
        } else if name == "variants"@ {
            Some(self.variants)
        } else if name == "places"@ {
            Some(self.places)
        } else if name == "query_tiles"@ {
            Some(self.query_tiles)
        } else if name == "reference_tiles"@ {
            Some(self.reference_tiles)
        } else if name == "warnings"@ {
            Some(self.warnings)
        } else if name == "errors"@ {
            Some(self.errors)
        } else {
            None
        }
    }

    /// The count of the given name.
    pub fn get(&self, name: &str) -> (count: Option<usize>)
        ensures
            count == self.named(name@),
    {
        if same_text(name, "tiles") {
            Some(self.tiles)
        } else if same_text(name, "patches") {
            Some(self.patches)
        } else if same_text(name, "variants") {
            Some(self.variants)
        } else if same_text(name, "places") {
            Some(self.places)
        } else if same_text(name, "query_tiles") {
            Some(self.query_tiles)
        } else if same_text(name, "reference_tiles") {
            Some(self.reference_tiles)
        } else if same_text(name, "warnings") {
            Some(self.warnings)
        } else if same_text(name, "errors") {
            Some(self.errors)
        } else {
            None
        }
    }
}

/// What a validation found.
#[derive(Debug, Clone, PartialEq, Eq)]
pub struct ValidationReport {
    pub valid: bool,
    pub errors: Vec<String>,
    pub warnings: Vec<String>,
    pub counts: ValidationCounts,
}

impl ValidationReport {
    /// The exit code of a program that reports the validation.
    pub fn exit_code(&self) -> (code: i32)
        ensures
            code == (if self.valid {
                0i32
            } else {
                1
            }),
    {
        if self.valid {
            0
        } else {
            1
        }
    }
}

/// The exit code of a program that cannot read what it is to validate.
pub const UNREADABLE: i32 = 2;

impl LoadError {
    /// The number of the document that could not be read.
    pub open spec fn number(self) -> usize {
        match self {
            LoadError::Missing(i) => i,
            LoadError::Malformed(i, _) => i,
        }
    }

    /// The report of the error for an output directory.
    pub open spec fn report(self, out: Seq<char>) -> Seq<char> {
        match self {
            LoadError::Missing(i) => "missing dataset manifest: "@ + document_file(out, i as int),
            LoadError::Malformed(_, error) => error_report(error),
        }
    }

    /// The report of the error for an output directory.
    pub fn message(&self, out: &str) -> (text: String)
        requires
            self.number() < DOCUMENTS,
        ensures
            text@ == self.report(out@),
    {
        match self {
            LoadError::Missing(i) => missing_document(out, *i),
            LoadError::Malformed(_, error) => error_text(error),
        }
    }

    /// The exit code of a program that reports that there is nothing to validate.
    pub fn exit_code(&self) -> (code: i32)
        ensures
            code == UNREADABLE,
    {
        UNREADABLE
    }
}

/// The report of a missing document.
fn missing_document(out: &str, i: usize) -> (text: String)
    requires
        i < DOCUMENTS,
    ensures
        text@ == "missing dataset manifest: "@ + document_file(out@, i as int),
{
    let files = document_files(out);
    let mut text = "missing dataset manifest: ".to_owned();
    text.append(files[i].as_str());
    text
}

fn text_field<'a>(item: &'a Json, field: &str) -> (text: &'a str)
    ensures
        text@ == text_or_empty(item@, field@),
{
    match item.get_text(field) {
        Some(text) => text.as_str(),
        None => {
            proof {
                reveal_strlit("");
            }
            assert(""@ =~= Seq::<char>::empty());
            ""
        },
    }
}

fn text_item(item: &Json) -> (text: &str)
    ensures
        text@ == item_text(item@),
{
    match item.as_text() {
        Some(text) => text.as_str(),
        None => {
            proof {
                reveal_strlit("");
            }
            assert(""@ =~= Seq::<char>::empty());
            ""
        },
    }
}

fn push_error(errors: &mut Vec<String>, error: String)
    ensures
        texts(final(errors)@) == texts(old(errors)@) + seq![error@],
{
    errors.push(error);
    assert(texts(errors@) =~= texts(old(errors)@) + seq![error@]);
}

/// The set holds the names of the items.
spec fn gathered(seen: Set<Seq<char>>, items: Seq<JsonView>, field: Seq<char>) -> bool {
    forall|id: Seq<char>| seen.contains(id) <==> #[trigger] id_known(items, field, id)
}

/// Reports items without a name and names that occur twice, and gathers the names.
fn check_unique_ids(
    kind: &str,
    items: &[Json],
    field: &str,
    errors: &mut Vec<String>,
) -> (seen: StringHashSet)
    ensures
        texts(final(errors)@) == texts(old(errors)@) + id_errors(
            kind@,
            json_views(items@),
            field@,
        ),
        gathered(seen@, json_views(items@), field@),
{
    let ghost views = json_views(items@);
    let ghost start = texts(errors@);
    let mut seen = StringHashSet::new();
    let mut i: usize = 0;
    assert(start + id_errors(kind@, views.take(0), field@) =~= start);
    while i < items.len()
        invariant
            0 <= i <= items@.len(),
            views == json_views(items@),
            texts(errors@) == start + id_errors(kind@, views.take(i as int), field@),
            gathered(seen@, views.take(i as int), field@),
        decreases items@.len() - i,
    {
        let ghost front = views.take(i as int);
        let ghost next = views.take(i + 1);
        let ghost before = seen@;
        let ghost sofar = texts(errors@);
        assert(next.drop_last() == front);
        assert(views[i as int] == items@[i as int]@);
        match items[i].get_text(field) {
            None => {
                let mut error = kind.to_owned();
                error.append(" missing ");
                error.append(field);
                push_error(errors, error);
                assert(texts(errors@) =~= start + id_errors(kind@, next, field@));
            },
            Some(value) => {
                if !seen.insert(value.clone()) {
                    let mut error = "duplicate ".to_owned();
                    error.append(kind);
                    error.append(" id: ");
                    error.append(value.as_str());
                    assert(id_known(front, field@, value@));
                    push_error(errors, error);
                    assert(texts(errors@) =~= start + id_errors(kind@, next, field@));
                } else {
                    assert(!id_known(front, field@, value@));
                }
            },
        }
        assert forall|id: Seq<char>| seen@.contains(id) <==> #[trigger] id_known(next, field@, id) by {
            assert(before.contains(id) <==> id_known(front, field@, id));
            if id_known(front, field@, id) {
                let k = choose|k: int|
                    0 <= k < front.len() && (#[trigger] front[k]).field_text(field@) == Some(id);
                assert(next[k].field_text(field@) == Some(id));
            }
            if next[i as int].field_text(field@) == Some(id) {
                assert(id_known(next, field@, id));
            }
            if id_known(next, field@, id) {
                let k = choose|k: int|
                    0 <= k < next.len() && (#[trigger] next[k]).field_text(field@) == Some(id);
                if k < i {
                    assert(front[k].field_text(field@) == Some(id));
                }
            }
        }
        i = i + 1;
    }
    assert(views.take(i as int) == views);
    seen
}

/// Whether a field holds bounds on the globe.
fn valid_bbox(value: Option<&Json>) -> (answer: bool)
    ensures
        answer == bbox_valid(match value {
            Some(json) => Some(json@),
            None => None,
        }),
{
    let items = match value {
        Some(json) => match json.as_list() {
            Some(items) => items,
            None => {
                return false;
            },
        },
        None => {
            return false;
        },
    };
    if items.len() != 4 {
        return false;
    }
    assert(json_views(items@)[0] == items@[0]@);
    assert(json_views(items@)[1] == items@[1]@);
    assert(json_views(items@)[2] == items@[2]@);
    assert(json_views(items@)[3] == items@[3]@);
    match (items[0].as_double(), items[1].as_double(), items[2].as_double(), items[3].as_double()) {
        (Some(west), Some(south), Some(east), Some(north)) => {
            (Double { bits: MINUS_180 }).is_at_most(west) && west.is_below(east) && east.is_at_most(
                Double { bits: PLUS_180 },
            ) && (Double { bits: MINUS_90 }).is_at_most(south) && south.is_below(north)
                && north.is_at_most(Double { bits: PLUS_90 })
        },
        _ => false,
    }
}

/// Whether a field holds a whole number above zero.
fn positive_int(value: Option<&Json>) -> (answer: bool)
    ensures
        answer == count_positive(match value {
            Some(json) => Some(json@),
            None => None,
        }),
{
    match value {
        Some(json) => match json.as_unsigned() {
            Some(n) => n > 0,
            None => false,
        },
        None => false,
    }
}

fn check_tile(tile: &Json, present: bool, errors: &mut Vec<String>)
    ensures
        texts(final(errors)@) == texts(old(errors)@) + tile_faults(tile@, present),
{
    let ghost start = texts(errors@);
    let id = text_field(tile, "tile_id");
    let path = text_field(tile, "path");
    if path.unicode_len() == 0 || !present {
        let mut error = "missing source image for tile ".to_owned();
        error.append(id);
        error.append(": ");
        error.append(path);
        push_error(errors, error);
    }
    if !valid_bbox(tile.get("bbox")) {
        let mut error = "invalid bbox for tile ".to_owned();
        error.append(id);
        push_error(errors, error);
    }
    if !positive_int(tile.get("image_width")) || !positive_int(tile.get("image_height")) {
        let mut error = "invalid image dimensions for tile ".to_owned();
        error.append(id);
        push_error(errors, error);
    }
    assert(texts(errors@) =~= start + tile_faults(tile@, present));
}

fn check_tiles(tiles: &[Json], present: &[bool], errors: &mut Vec<String>)
    requires
        present@.len() == tiles@.len(),
    ensures
        texts(final(errors)@) == texts(old(errors)@) + tile_errors(
            json_views(tiles@),
            present@,
        ),
{
    let ghost views = json_views(tiles@);
    let ghost start = texts(errors@);
    let mut i: usize = 0;
    assert(start + tile_errors(views.take(0), present@) =~= start);
    while i < tiles.len()
        invariant
            0 <= i <= tiles@.len(),
            present@.len() == tiles@.len(),
            views == json_views(tiles@),
            texts(errors@) == start + tile_errors(views.take(i as int), present@),
        decreases tiles@.len() - i,
    {
        assert(views.take(i + 1).drop_last() == views.take(i as int));
        assert(views[i as int] == tiles@[i as int]@);
        check_tile(&tiles[i], present[i], errors);
        assert(texts(errors@) =~= start + tile_errors(views.take(i + 1), present@));
        i = i + 1;
    }
    assert(views.take(i as int) == views);
}

fn check_ids(
    list: &[Json],
    known: &StringHashSet,
    before: &str,
    errors: &mut Vec<String>,
    Ghost(items): Ghost<Seq<JsonView>>,
    Ghost(field): Ghost<Seq<char>>,
)
    requires
        gathered(known@, items, field),
    ensures
        texts(final(errors)@) == texts(old(errors)@) + unknown_ids(
            json_views(list@),
            items,
            field,
            before@,
        ),
{
    let ghost views = json_views(list@);
    let ghost start = texts(errors@);
    let mut i: usize = 0;
    assert(start + unknown_ids(views.take(0), items, field, before@) =~= start);
    while i < list.len()
        invariant
            0 <= i <= list@.len(),
            gathered(known@, items, field),
            views == json_views(list@),
            texts(errors@) == start + unknown_ids(views.take(i as int), items, field, before@),
        decreases list@.len() - i,
    {
        assert(views.take(i + 1).drop_last() == views.take(i as int));
        assert(views[i as int] == list@[i as int]@);
        let id = text_item(&list[i]);
        assert(known@.contains(id@) <==> id_known(items, field, id@));
        if !known.contains(id) {
            let mut error = before.to_owned();
            error.append(id);
            push_error(errors, error);
        }
        assert(texts(errors@) =~= start + unknown_ids(views.take(i + 1), items, field, before@));
        i = i + 1;
    }
    assert(views.take(i as int) == views);
}

/// Checks the names in a list field, where it is one.
fn check_list(
    list: Option<&Vec<Json>>,
    known: &StringHashSet,
    before: &str,
    errors: &mut Vec<String>,
    Ghost(items): Ghost<Seq<JsonView>>,
    Ghost(field): Ghost<Seq<char>>,
)
    requires
        gathered(known@, items, field),
    ensures
        texts(final(errors)@) == texts(old(errors)@) + unknown_ids(
            match list {
                Some(found) => json_views(found@),
                None => Seq::empty(),
            },
            items,
            field,
            before@,
        ),
{
    match list {
        Some(found) => check_ids(
            found.as_slice(),
            known,
            before,
            errors,
            Ghost(items),
            Ghost(field),
        ),
        None => {
            assert(texts(errors@) =~= texts(old(errors)@) + unknown_ids(
                Seq::<JsonView>::empty(),
                items,
                field,
                before@,
            ));
        },
    }
}

fn check_patch(
    patch: &Json,
    tile_ids: &StringHashSet,
    errors: &mut Vec<String>,
    Ghost(tiles): Ghost<Seq<JsonView>>,
)
    requires
        gathered(tile_ids@, tiles, "tile_id"@),
    ensures
        texts(final(errors)@) == texts(old(errors)@) + patch_faults(patch@, tiles),
{
    let ghost start = texts(errors@);
    let id = text_field(patch, "patch_id");
    if !valid_bbox(patch.get("bbox")) {
        let mut error = "invalid bbox for patch ".to_owned();
        error.append(id);
        push_error(errors, error);
    }
    let mut before = "patch ".to_owned();
    before.append(id);
    before.append(" references missing tile ");
    let sources = match patch.get_list("source_tile_ids") {
        Some(items) => Some(items),
        None => patch.get_list("source_tiles"),
    };
    check_list(
        sources,
        tile_ids,
        before.as_str(),
        errors,
        Ghost(tiles),
        Ghost("tile_id"@),
    );
    assert(texts(errors@) =~= start + patch_faults(patch@, tiles));
}

fn check_patches(
    patches: &[Json],
    tile_ids: &StringHashSet,
    errors: &mut Vec<String>,
    Ghost(tiles): Ghost<Seq<JsonView>>,
)
    requires
        gathered(tile_ids@, tiles, "tile_id"@),
    ensures
        texts(final(errors)@) == texts(old(errors)@) + patch_errors(json_views(patches@), tiles),
{
    let ghost views = json_views(patches@);
    let ghost start = texts(errors@);
    let mut i: usize = 0;
    assert(start + patch_errors(views.take(0), tiles) =~= start);
    while i < patches.len()
        invariant
            0 <= i <= patches@.len(),
            gathered(tile_ids@, tiles, "tile_id"@),
            views == json_views(patches@),
            texts(errors@) == start + patch_errors(views.take(i as int), tiles),
        decreases patches@.len() - i,
    {
        assert(views.take(i + 1).drop_last() == views.take(i as int));
        assert(views[i as int] == patches@[i as int]@);
        check_patch(&patches[i], tile_ids, errors, Ghost(tiles));
        assert(texts(errors@) =~= start + patch_errors(views.take(i + 1), tiles));
        i = i + 1;
    }
    assert(views.take(i as int) == views);
}

fn check_variants(
    variants: &[Json],
    patch_ids: &StringHashSet,
    errors: &mut Vec<String>,
    Ghost(patches): Ghost<Seq<JsonView>>,
)
    requires
        gathered(patch_ids@, patches, "patch_id"@),
    ensures
        texts(final(errors)@) == texts(old(errors)@) + variant_errors(
            json_views(variants@),
            patches,
        ),
{
    let ghost views = json_views(variants@);
    let ghost start = texts(errors@);
    let mut i: usize = 0;
    assert(start + variant_errors(views.take(0), patches) =~= start);
    while i < variants.len()
        invariant
            0 <= i <= variants@.len(),
            gathered(patch_ids@, patches, "patch_id"@),
            views == json_views(variants@),
            texts(errors@) == start + variant_errors(views.take(i as int), patches),
        decreases variants@.len() - i,
    {
        assert(views.take(i + 1).drop_last() == views.take(i as int));
        assert(views[i as int] == variants@[i as int]@);
        let id = text_field(&variants[i], "variant_id");
        let patch = text_field(&variants[i], "patch_id");
        assert(patch_ids@.contains(patch@) <==> id_known(patches, "patch_id"@, patch@));
        if !patch_ids.contains(patch) {
            let mut error = "variant ".to_owned();
            error.append(id);
            error.append(" references missing patch ");
            error.append(patch);
            push_error(errors, error);
        }
        assert(texts(errors@) =~= start + variant_errors(views.take(i + 1), patches));
        i = i + 1;
    }
    assert(views.take(i as int) == views);
}

fn check_place_tiles(
    place: &Json,
    field: &str,
    tile_ids: &StringHashSet,
    errors: &mut Vec<String>,
    Ghost(tiles): Ghost<Seq<JsonView>>,
)
    requires
        gathered(tile_ids@, tiles, "tile_id"@),
    ensures
        texts(final(errors)@) == texts(old(errors)@) + place_tile_faults(place@, field@, tiles),
{
    let mut before = "place ".to_owned();
    before.append(text_field(place, "place_id"));
    before.append(" ");
    before.append(field);
    before.append(" references missing tile ");
    check_list(
        place.get_list(field),
        tile_ids,
        before.as_str(),
        errors,
        Ghost(tiles),
        Ghost("tile_id"@),
    );
}

fn check_places(
    places: &[Json],
    tile_ids: &StringHashSet,
    patch_ids: &StringHashSet,
    errors: &mut Vec<String>,
    Ghost(tiles): Ghost<Seq<JsonView>>,
    Ghost(patches): Ghost<Seq<JsonView>>,
)
    requires
        gathered(tile_ids@, tiles, "tile_id"@),
        gathered(patch_ids@, patches, "patch_id"@),
    ensures
        texts(final(errors)@) == texts(old(errors)@) + place_errors(
            json_views(places@),
            tiles,
            patches,
        ),
{
    let ghost views = json_views(places@);
    let ghost start = texts(errors@);
    let mut i: usize = 0;
    assert(start + place_errors(views.take(0), tiles, patches) =~= start);
    while i < places.len()
        invariant
            0 <= i <= places@.len(),
            gathered(tile_ids@, tiles, "tile_id"@),
            gathered(patch_ids@, patches, "patch_id"@),
            views == json_views(places@),
            texts(errors@) == start + place_errors(views.take(i as int), tiles, patches),
        decreases places@.len() - i,
    {
        let ghost done = texts(errors@);
        let place = &places[i];
        assert(views.take(i + 1).drop_last() == views.take(i as int));
        assert(views[i as int] == places@[i as int]@);
        check_place_tiles(place, "tile_ids", tile_ids, errors, Ghost(tiles));
        check_place_tiles(place, "reference_tile_ids", tile_ids, errors, Ghost(tiles));
        check_place_tiles(place, "query_tile_ids", tile_ids, errors, Ghost(tiles));
        let mut before = "place ".to_owned();
        before.append(text_field(place, "place_id"));
        before.append(" references missing patch ");
        check_list(
            place.get_list("patch_ids"),
            patch_ids,
            before.as_str(),
            errors,
            Ghost(patches),
            Ghost("patch_id"@),
        );
        assert(texts(errors@) =~= done + place_faults(place@, tiles, patches));
        assert(texts(errors@) =~= start + place_errors(views.take(i + 1), tiles, patches));
        i = i + 1;
    }
    assert(views.take(i as int) == views);
}

fn check_flag(config: &Json, field: &str, errors: &mut Vec<String>)
    ensures
        texts(final(errors)@) == texts(old(errors)@) + flag_fault(config@, field@),
{
    let off = match config.get(field) {
        Some(value) => match value.as_bool() {
            Some(b) => !b,
            None => false,
        },
        None => false,
    };
    if !off {
        let mut error = "dataset config ".to_owned();
        error.append(field);
        error.append(" must be false");
        push_error(errors, error);
    }
    assert(texts(errors@) =~= texts(old(errors)@) + flag_fault(config@, field@));
}

fn count_images(files: &[String]) -> (count: usize)
    ensures
        count == image_count(texts(files@)),
{
    let ghost views = texts(files@);
    let mut count: usize = 0;
    let mut i: usize = 0;
    while i < files.len()
        invariant
            0 <= i <= files@.len(),
            views == texts(files@),
            count <= i,
            count == image_count(views.take(i as int)),
        decreases files@.len() - i,
    {
        assert(views.take(i + 1).drop_last() == views.take(i as int));
        assert(views[i as int] == files@[i as int]@);
        if let Some(text) = extension_of(files[i].as_str()) {
            if is_supported_extension(lower_text(text.as_str()).as_str()) {
                count = count + 1;
            }
        }
        i = i + 1;
    }
    assert(views.take(i as int) == views);
    count
}

fn count_role(tiles: &[Json], role: &str) -> (count: usize)
    ensures
        count == role_count(json_views(tiles@), role@),
{
    let ghost views = json_views(tiles@);
    let mut count: usize = 0;
    let mut i: usize = 0;
    while i < tiles.len()
        invariant
            0 <= i <= tiles@.len(),
            views == json_views(tiles@),
            count <= i,
            count == role_count(views.take(i as int), role@),
        decreases tiles@.len() - i,
    {
        assert(views.take(i + 1).drop_last() == views.take(i as int));
        assert(views[i as int] == tiles@[i as int]@);
        if let Some(found) = tiles[i].get_text("role") {
            if same_text(found.as_str(), role) {
                count = count + 1;
            }
        }
        i = i + 1;
    }
    assert(views.take(i as int) == views);
    count
}

fn list_of<'a>(document: &'a Json, none: &'a Vec<Json>) -> (items: &'a Vec<Json>)
    requires
        none@.len() == 0,
    ensures
        json_views(items@) == items_of(document@),
{
    match document.as_list() {
        Some(items) => items,
        None => {
            assert(json_views(none@) =~= Seq::<JsonView>::empty());
            none
        },
    }
}

/// The paths of the images of a dataset, in order; empty for an image without one.
pub fn tile_paths(dataset: &Dataset) -> (paths: Vec<String>)
    ensures
        paths@.len() == items_of(dataset.tiles@).len(),
        forall|i: int|
            0 <= i < paths@.len() ==> (#[trigger] paths@[i])@ == text_or_empty(
                items_of(dataset.tiles@)[i],
                "path"@,
            ),
{
    let none: Vec<Json> = Vec::new();
    let tiles = list_of(&dataset.tiles, &none);
    let ghost views = json_views(tiles@);
    let mut paths: Vec<String> = Vec::new();
    let mut i: usize = 0;
    while i < tiles.len()
        invariant
            0 <= i <= tiles@.len(),
            views == json_views(tiles@),
            paths@.len() == i,
            forall|k: int|
                0 <= k < i ==> (#[trigger] paths@[k])@ == text_or_empty(views[k], "path"@),
        decreases tiles@.len() - i,
    {
        assert(views[i as int] == tiles@[i as int]@);
        paths.push(text_field(&tiles[i], "path").to_owned());
        i = i + 1;
    }
    paths
}

/// All that is wrong with a dataset. `present` tells which images exist.
pub open spec fn errors_found(dataset: Dataset, present: Seq<bool>) -> Seq<Seq<char>> {
    dataset_errors(
        items_of(dataset.tiles@),
        items_of(dataset.patches@),
        items_of(dataset.variants@),
        items_of(dataset.places@),
        dataset.dataset@,
        present,
    )
}

/// What a validation reports as errors: all that is wrong and, where it is strict, what is
/// doubtful.
pub open spec fn errors_reported(
    dataset: Dataset,
    present: Seq<bool>,
    generated: Seq<Seq<char>>,
    strict: bool,
) -> Seq<Seq<char>> {
    if strict {
        errors_found(dataset, present) + generated_warnings(generated)
    } else {
        errors_found(dataset, present)
    }
}

/// Validates a dataset. `present` tells, for each image, whether its file exists, and `generated`
/// lists the files that lie under the directory of the documents. A strict validation takes
/// warnings for errors.
#[verifier::rlimit(40)]
pub fn validate_dataset(
    dataset: &Dataset,
    present: &[bool],
    generated: &[String],
    strict: bool,
) -> (report: ValidationReport)
    requires
        present@.len() == items_of(dataset.tiles@).len(),
    ensures
        report.valid == (report.errors@.len() == 0),
        texts(report.errors@) == errors_reported(
            *dataset,
            present@,
            texts(generated@),
            strict,
        ),
        texts(report.warnings@) == (if strict {
            Seq::empty()
        } else {
            generated_warnings(texts(generated@))
        }),
        report.counts.tiles == items_of(dataset.tiles@).len(),
        report.counts.patches == items_of(dataset.patches@).len(),
        report.counts.variants == items_of(dataset.variants@).len(),
        report.counts.places == items_of(dataset.places@).len(),
        report.counts.query_tiles == role_count(items_of(dataset.tiles@), "query"@),
        report.counts.reference_tiles == role_count(items_of(dataset.tiles@), "reference"@),
        report.counts.warnings == report.warnings@.len(),
        report.counts.errors == report.errors@.len(),
{
    let none: Vec<Json> = Vec::new();
    let tiles = list_of(&dataset.tiles, &none);
    let patches = list_of(&dataset.patches, &none);
    let variants = list_of(&dataset.variants, &none);
    let places = list_of(&dataset.places, &none);
    let config = &dataset.dataset;
    let ghost tile_items = json_views(tiles@);
    let ghost patch_items = json_views(patches@);
    let mut errors: Vec<String> = Vec::new();
    let mut warnings: Vec<String> = Vec::new();
    assert(texts(errors@) =~= Seq::<Seq<char>>::empty());
    assert(texts(warnings@) =~= Seq::<Seq<char>>::empty());
    let tile_ids = check_unique_ids("tile", tiles.as_slice(), "tile_id", &mut errors);
    let patch_ids = check_unique_ids("patch", patches.as_slice(), "patch_id", &mut errors);
    check_unique_ids("variant", variants.as_slice(), "variant_id", &mut errors);
    check_unique_ids("place", places.as_slice(), "place_id", &mut errors);
    check_tiles(tiles.as_slice(), present, &mut errors);
    check_patches(patches.as_slice(), &tile_ids, &mut errors, Ghost(tile_items));
    check_variants(variants.as_slice(), &patch_ids, &mut errors, Ghost(patch_items));
    check_places(
        places.as_slice(),
        &tile_ids,
        &patch_ids,
        &mut errors,
        Ghost(tile_items),
        Ghost(patch_items),
    );
    check_flag(config, "images_modified", &mut errors);
    check_flag(config, "descriptors_computed", &mut errors);
    check_flag(config, "indexes_built", &mut errors);
    check_flag(config, "generated_images_default", &mut errors);
    assert(texts(errors@) =~= errors_found(*dataset, present@));
    let images: usize = count_images(generated);
    if images > 0 {
        let mut warning = "found generated image(s) under vpr: ".to_owned();
        push_decimal(&mut warning, images as u64);
        push_error(&mut warnings, warning);
    }
    assert(texts(warnings@) =~= generated_warnings(texts(generated@)));
    if strict && warnings.len() > 0 {
        let ghost before = errors@;
        let ghost moved = warnings@;
        errors.append(&mut warnings);
        assert(texts(errors@) =~= texts(before) + texts(moved));
        assert(texts(warnings@) =~= Seq::<Seq<char>>::empty());
    } else {
        assert(strict ==> texts(errors@) =~= errors_found(*dataset, present@)
            + generated_warnings(texts(generated@)));
    }
    let counts = ValidationCounts {
        tiles: tiles.len(),
        patches: patches.len(),
        variants: variants.len(),
        places: places.len(),
        query_tiles: count_role(tiles.as_slice(), "query"),
        reference_tiles: count_role(tiles.as_slice(), "reference"),
        warnings: warnings.len(),
        errors: errors.len(),
    };
    ValidationReport { valid: errors.len() == 0, errors, warnings, counts }
}

/// A dataset passes a strict validation exactly where it passes any and nothing is doubtful.
pub proof fn law_strict_validation(
    dataset: Dataset,
    present: Seq<bool>,
    generated: Seq<Seq<char>>,
)
    ensures
        errors_reported(dataset, present, generated, true).len() == 0 <==> errors_reported(
            dataset,
            present,
            generated,
            false,
        ).len() == 0 && image_count(generated) == 0,
{
}

/// Every item has a name, and no two have the same.
pub open spec fn ids_unique(items: Seq<JsonView>, field: Seq<char>) -> bool {
    &&& forall|i: int| 0 <= i < items.len() ==> (#[trigger] items[i]).field_text(field) is Some
    &&& forall|i: int, j: int|
        0 <= i < j < items.len() ==> (#[trigger] items[i]).field_text(field) != (
        #[trigger] items[j]).field_text(field)
}

proof fn lemma_no_id_errors(kind: Seq<char>, items: Seq<JsonView>, field: Seq<char>)
    ensures
        id_errors(kind, items, field).len() == 0 <==> ids_unique(items, field),
    decreases items.len(),
{
    if items.len() > 0 {
        let front = items.drop_last();
        let last = items.len() - 1;
        lemma_no_id_errors(kind, front, field);
        if ids_unique(items, field) {
            assert forall|i: int| 0 <= i < front.len() implies (#[trigger] front[i]).field_text(
                field,
            ) is Some by {
                assert(front[i] == items[i]);
            }
            assert forall|i: int, j: int| 0 <= i < j < front.len() implies (
            #[trigger] front[i]).field_text(field) != (#[trigger] front[j]).field_text(field) by {
                assert(front[i] == items[i] && front[j] == items[j]);
            }
            assert(items[last].field_text(field) is Some);
            let id = items[last].field_text(field)->0;
            if id_known(front, field, id) {
                let i = choose|i: int|
                    0 <= i < front.len() && (#[trigger] front[i]).field_text(field) == Some(id);
                assert(items[i].field_text(field) == items[last].field_text(field));
            }
        }
        if id_errors(kind, items, field).len() == 0 {
            assert forall|i: int| 0 <= i < items.len() implies (#[trigger] items[i]).field_text(
                field,
            ) is Some by {
                if i < last {
                    assert(front[i] == items[i]);
                }
            }
            assert forall|i: int, j: int| 0 <= i < j < items.len() implies (
            #[trigger] items[i]).field_text(field) != (#[trigger] items[j]).field_text(field) by {
                assert(front[i] == items[i]);
                if j < last {
                    assert(front[j] == items[j]);
                } else {
                    let id = items[last].field_text(field)->0;
                    assert(!id_known(front, field, id));
                }
            }
        }
    }
}

/// Every name in the list is that of one of the items.
pub open spec fn ids_resolve(
    list: Seq<JsonView>,
    items: Seq<JsonView>,
    field: Seq<char>,
) -> bool {
    forall|k: int|
        0 <= k < list.len() ==> id_known(items, field, item_text(#[trigger] list[k]))
}

proof fn lemma_no_unknown_ids(
    list: Seq<JsonView>,
    items: Seq<JsonView>,
    field: Seq<char>,
    before: Seq<char>,
)
    ensures
        unknown_ids(list, items, field, before).len() == 0 <==> ids_resolve(list, items, field),
    decreases list.len(),
{
    if list.len() > 0 {
        let front = list.drop_last();
        lemma_no_unknown_ids(front, items, field, before);
        if ids_resolve(list, items, field) {
            assert forall|k: int| 0 <= k < front.len() implies id_known(
                items,
                field,
                item_text(#[trigger] front[k]),
            ) by {
                assert(front[k] == list[k]);
            }
            assert(id_known(items, field, item_text(list[list.len() - 1])));
        }
        if unknown_ids(list, items, field, before).len() == 0 {
            assert forall|k: int| 0 <= k < list.len() implies id_known(
                items,
                field,
                item_text(#[trigger] list[k]),
            ) by {
                if k < front.len() {
                    assert(front[k] == list[k]);
                }
            }
        }
    }
}

/// An image with a file, bounds on the globe and a size.
pub open spec fn tile_sound(tile: JsonView, present: bool) -> bool {
    &&& text_or_empty(tile, "path"@).len() > 0
    &&& present
    &&& bbox_valid(tile.field("bbox"@))
    &&& count_positive(tile.field("image_width"@))
    &&& count_positive(tile.field("image_height"@))
}

/// A mosaic with bounds on the globe whose images are there.
pub open spec fn patch_sound(patch: JsonView, tiles: Seq<JsonView>) -> bool {
    &&& bbox_valid(patch.field("bbox"@))
    &&& (patch_sources(patch) matches Some(sources) ==> ids_resolve(sources, tiles, "tile_id"@))
}

/// A variant whose mosaic is there.
pub open spec fn variant_sound(variant: JsonView, patches: Seq<JsonView>) -> bool {
    id_known(patches, "patch_id"@, text_or_empty(variant, "patch_id"@))
}

/// A place whose images and mosaics are there.
pub open spec fn place_sound(
    place: JsonView,
    tiles: Seq<JsonView>,
    patches: Seq<JsonView>,
) -> bool {
    &&& ids_resolve(list_or_empty(place, "tile_ids"@), tiles, "tile_id"@)
    &&& ids_resolve(list_or_empty(place, "reference_tile_ids"@), tiles, "tile_id"@)
    &&& ids_resolve(list_or_empty(place, "query_tile_ids"@), tiles, "tile_id"@)
    &&& ids_resolve(list_or_empty(place, "patch_ids"@), patches, "patch_id"@)
}

/// A flag that is off.
pub open spec fn flag_off(config: JsonView, field: Seq<char>) -> bool {
    config.field(field) matches Some(value) && value.bool() == Some(false)
}

/// Flags that tell of metadata only.
pub open spec fn metadata_only(config: JsonView) -> bool {
    &&& flag_off(config, "images_modified"@)
    &&& flag_off(config, "descriptors_computed"@)
    &&& flag_off(config, "indexes_built"@)
    &&& flag_off(config, "generated_images_default"@)
}

proof fn lemma_no_tile_errors(tiles: Seq<JsonView>, present: Seq<bool>)
    ensures
        tile_errors(tiles, present).len() == 0 <==> forall|i: int|
            0 <= i < tiles.len() ==> tile_sound(#[trigger] tiles[i], present[i]),
    decreases tiles.len(),
{
    if tiles.len() > 0 {
        let front = tiles.drop_last();
        let last = tiles.len() - 1;
        lemma_no_tile_errors(front, present);
        assert(tile_faults(tiles[last], present[last]).len() == 0 <==> tile_sound(
            tiles[last],
            present[last],
        ));
        assert(forall|i: int| 0 <= i < front.len() ==> front[i] == tiles[i]);
        if tile_errors(tiles, present).len() == 0 {
            assert forall|i: int| 0 <= i < tiles.len() implies tile_sound(
                #[trigger] tiles[i],
                present[i],
            ) by {
                if i < last {
                    assert(tile_sound(front[i], present[i]));
                }
            }
        }
    }
}

proof fn lemma_no_patch_errors(patches: Seq<JsonView>, tiles: Seq<JsonView>)
    ensures
        patch_errors(patches, tiles).len() == 0 <==> forall|i: int|
            0 <= i < patches.len() ==> patch_sound(#[trigger] patches[i], tiles),
    decreases patches.len(),
{
    if patches.len() > 0 {
        let front = patches.drop_last();
        let last = patches.len() - 1;
        let patch = patches[last];
        lemma_no_patch_errors(front, tiles);
        let sources = match patch_sources(patch) {
            Some(items) => items,
            None => Seq::empty(),
        };
        lemma_no_unknown_ids(
            sources,
            tiles,
            "tile_id"@,
            "patch "@ + text_or_empty(patch, "patch_id"@) + " references missing tile "@,
        );
        assert(patch_faults(patch, tiles).len() == 0 <==> patch_sound(patch, tiles));
        assert(forall|i: int| 0 <= i < front.len() ==> front[i] == patches[i]);
        if patch_errors(patches, tiles).len() == 0 {
            assert forall|i: int| 0 <= i < patches.len() implies patch_sound(
                #[trigger] patches[i],
                tiles,
            ) by {
                if i < last {
                    assert(patch_sound(front[i], tiles));
                }
            }
        }
    }
}

proof fn lemma_no_variant_errors(variants: Seq<JsonView>, patches: Seq<JsonView>)
    ensures
        variant_errors(variants, patches).len() == 0 <==> forall|i: int|
            0 <= i < variants.len() ==> variant_sound(#[trigger] variants[i], patches),
    decreases variants.len(),
{
    if variants.len() > 0 {
        let front = variants.drop_last();
        let last = variants.len() - 1;
        lemma_no_variant_errors(front, patches);
        assert(forall|i: int| 0 <= i < front.len() ==> front[i] == variants[i]);
        assert(variants.last() == variants[last]);
        if variant_errors(variants, patches).len() == 0 {
            assert forall|i: int| 0 <= i < variants.len() implies variant_sound(
                #[trigger] variants[i],
                patches,
            ) by {
                if i < last {
                    assert(variant_sound(front[i], patches));
                }
            }
        }
    }
}

proof fn lemma_no_place_errors(
    places: Seq<JsonView>,
    tiles: Seq<JsonView>,
    patches: Seq<JsonView>,
)
    ensures
        place_errors(places, tiles, patches).len() == 0 <==> forall|i: int|
            0 <= i < places.len() ==> place_sound(#[trigger] places[i], tiles, patches),
    decreases places.len(),
{
    if places.len() > 0 {
        let front = places.drop_last();
        let last = places.len() - 1;
        let place = places[last];
        lemma_no_place_errors(front, tiles, patches);
        let id = text_or_empty(place, "place_id"@);
        lemma_no_unknown_ids(
            list_or_empty(place, "tile_ids"@),
            tiles,
            "tile_id"@,
            "place "@ + id + " "@ + "tile_ids"@ + " references missing tile "@,
        );
        lemma_no_unknown_ids(
            list_or_empty(place, "reference_tile_ids"@),
            tiles,
            "tile_id"@,
            "place "@ + id + " "@ + "reference_tile_ids"@ + " references missing tile "@,
        );
        lemma_no_unknown_ids(
            list_or_empty(place, "query_tile_ids"@),
            tiles,
            "tile_id"@,
            "place "@ + id + " "@ + "query_tile_ids"@ + " references missing tile "@,
        );
        lemma_no_unknown_ids(
            list_or_empty(place, "patch_ids"@),
            patches,
            "patch_id"@,
            "place "@ + id + " references missing patch "@,
        );
        assert(place_faults(place, tiles, patches).len() == 0 <==> place_sound(
            place,
            tiles,
            patches,
        ));
        assert(forall|i: int| 0 <= i < front.len() ==> front[i] == places[i]);
        if place_errors(places, tiles, patches).len() == 0 {
            assert forall|i: int| 0 <= i < places.len() implies place_sound(
                #[trigger] places[i],
                tiles,
                patches,
            ) by {
                if i < last {
                    assert(place_sound(front[i], tiles, patches));
                }
            }
        }
    }
}

/// The documents of a dataset are sound: names are unique, what is referred to is there, images
/// exist and have bounds on the globe and a size, and the flags tell of metadata only.
pub open spec fn dataset_sound(
    tiles: Seq<JsonView>,
    patches: Seq<JsonView>,
    variants: Seq<JsonView>,
    places: Seq<JsonView>,
    config: JsonView,
    present: Seq<bool>,
) -> bool {
    &&& ids_unique(tiles, "tile_id"@)
    &&& ids_unique(patches, "patch_id"@)
    &&& ids_unique(variants, "variant_id"@)
    &&& ids_unique(places, "place_id"@)
    &&& forall|i: int| 0 <= i < tiles.len() ==> tile_sound(#[trigger] tiles[i], present[i])
    &&& forall|i: int| 0 <= i < patches.len() ==> patch_sound(#[trigger] patches[i], tiles)
    &&& forall|i: int| 0 <= i < variants.len() ==> variant_sound(#[trigger] variants[i], patches)
    &&& forall|i: int| 0 <= i < places.len() ==> place_sound(#[trigger] places[i], tiles, patches)
    &&& metadata_only(config)
}

/// A validation finds nothing wrong exactly where the documents are sound.
pub proof fn law_valid_means_sound(
    tiles: Seq<JsonView>,
    patches: Seq<JsonView>,
    variants: Seq<JsonView>,
    places: Seq<JsonView>,
    config: JsonView,
    present: Seq<bool>,
)
    ensures
        dataset_errors(tiles, patches, variants, places, config, present).len() == 0
            <==> dataset_sound(tiles, patches, variants, places, config, present),
{
    lemma_no_id_errors("tile"@, tiles, "tile_id"@);
    lemma_no_id_errors("patch"@, patches, "patch_id"@);
    lemma_no_id_errors("variant"@, variants, "variant_id"@);
    lemma_no_id_errors("place"@, places, "place_id"@);
    lemma_no_tile_errors(tiles, present);
    lemma_no_patch_errors(patches, tiles);
    lemma_no_variant_errors(variants, patches);
    lemma_no_place_errors(places, tiles, patches);
    assert(flag_errors(config).len() == 0 <==> metadata_only(config));
}

/// The documents of a dataset lie under `vpr`, the lists in `manifest` and the settings in `config`.
pub proof fn law_document_files(out: Seq<char>)
    requires
        out.len() > 0,
        out.last() != '/',
    ensures
        DOCUMENTS == 6,
        document_file(out, 0) == out + "/vpr/manifest/tiles.json"@,
        document_file(out, 1) == out + "/vpr/manifest/patches.json"@,
        document_file(out, 2) == out + "/vpr/manifest/variants.json"@,
        document_file(out, 3) == out + "/vpr/manifest/places.json"@,
        document_file(out, 4) == out + "/vpr/manifest/quality.json"@,
        document_file(out, 5) == out + "/vpr/config/dataset.json"@,
{
    reveal_strlit("vpr");
    reveal_strlit("manifest");
    reveal_strlit("config");
    reveal_strlit("tiles.json");
    reveal_strlit("patches.json");
    reveal_strlit("variants.json");
    reveal_strlit("places.json");
    reveal_strlit("quality.json");
    reveal_strlit("dataset.json");
    reveal_strlit("/vpr/manifest/tiles.json");
    reveal_strlit("/vpr/manifest/patches.json");
    reveal_strlit("/vpr/manifest/variants.json");
    reveal_strlit("/vpr/manifest/places.json");
    reveal_strlit("/vpr/manifest/quality.json");
    reveal_strlit("/vpr/config/dataset.json");
    let root = joined(out, "vpr"@);
    assert(root =~= out + seq!['/', 'v', 'p', 'r']);
    assert(root.last() == 'r');
    let manifest = joined(root, "manifest"@);
    let config = joined(root, "config"@);
    assert(manifest =~= root + seq!['/', 'm', 'a', 'n', 'i', 'f', 'e', 's', 't']);
    assert(config =~= root + seq!['/', 'c', 'o', 'n', 'f', 'i', 'g']);
    assert(manifest.last() == 't' && config.last() == 'g');
    assert(document_file(out, 0) =~= out + "/vpr/manifest/tiles.json"@);
    assert(document_file(out, 1) =~= out + "/vpr/manifest/patches.json"@);
    assert(document_file(out, 2) =~= out + "/vpr/manifest/variants.json"@);
    assert(document_file(out, 3) =~= out + "/vpr/manifest/places.json"@);
    assert(document_file(out, 4) =~= out + "/vpr/manifest/quality.json"@);
    assert(document_file(out, 5) =~= out + "/vpr/config/dataset.json"@);
}

/// The documents that are read are those before the first that is missing or no JSON.
pub proof fn law_documents_are_read_in_order(files: Seq<Option<Vec<u8>>>, i: int)
    requires
        0 <= i <= files.len(),
    ensures
        i <= documents_read(files, i) <= files.len(),
        forall|k: int|
            i <= k < documents_read(files, i) ==> ((#[trigger] files[k]) matches Some(bytes)
                && json_of_bytes(bytes@) is Ok),
        documents_read(files, i) < files.len() ==> !(files[documents_read(files, i)] matches Some(
            bytes,
        ) && json_of_bytes(bytes@) is Ok),
    decreases files.len() - i,
{
    if i < files.len() && document_of(files[i]) is Some {
        law_documents_are_read_in_order(files, i + 1);
    }
}

/// A box is valid where it is a list of four numbers: west before east, both on the globe, and south
/// before north, both on the globe.
pub proof fn law_valid_boxes(west: Double, south: Double, east: Double, north: Double)
    ensures
        ({
            let list = JsonView::List(
                seq![
                    JsonView::Number(JsonNumber::Real(west)),
                    JsonView::Number(JsonNumber::Real(south)),
                    JsonView::Number(JsonNumber::Real(east)),
                    JsonView::Number(JsonNumber::Real(north)),
                ],
            );
            bbox_valid(Some(list)) <==> {
                &&& west.below(east)
                &&& south.below(north)
                &&& !west.below(Double { bits: MINUS_180 })
                &&& !(Double { bits: PLUS_180 }).below(east)
                &&& !south.below(Double { bits: MINUS_90 })
                &&& !(Double { bits: PLUS_90 }).below(north)
            }
        }),
        !bbox_valid(None),
        forall|items: Seq<JsonView>|
            items.len() != 4 ==> !#[trigger] bbox_valid(Some(JsonView::List(items))),
        forall|items: Seq<JsonView>, i: int|
            0 <= i < 4 && !(#[trigger] items[i] is Number) ==> !#[trigger] bbox_valid(
                Some(JsonView::List(items)),
            ),
        forall|value: JsonView| !(value is List) ==> !#[trigger] bbox_valid(Some(value)),
{
    let items = seq![
        JsonView::Number(JsonNumber::Real(west)),
        JsonView::Number(JsonNumber::Real(south)),
        JsonView::Number(JsonNumber::Real(east)),
        JsonView::Number(JsonNumber::Real(north)),
    ];
    assert(items[0].double() == Some(west) && items[1].double() == Some(south));
    assert(items[2].double() == Some(east) && items[3].double() == Some(north));
    assert forall|items: Seq<JsonView>, i: int|
        0 <= i < 4 && !(#[trigger] items[i] is Number) implies !#[trigger] bbox_valid(
        Some(JsonView::List(items)),
    ) by {
        assert(i == 0 || i == 1 || i == 2 || i == 3);
    }
}

/// A count is a whole number of at least one; zero, numbers below it, other numbers and everything
/// else are none.
pub proof fn law_valid_counts(n: u64)
    ensures
        count_positive(Some(JsonView::Number(JsonNumber::Unsigned(n)))) <==> n >= 1,
        !count_positive(None),
        forall|value: JsonView|
            !(value matches JsonView::Number(JsonNumber::Unsigned(_))) ==> !#[trigger] count_positive(
                Some(value),
            ),
{
}

/// Validation counts the files with an extension of an image, in whatever case.
pub proof fn law_images_are_counted(files: Seq<Seq<char>>)
    ensures
        image_count(files) == files.filter(
            |file: Seq<char>|
                path_extension(file) matches Some(text) && (lower(text) == "jpg"@ || lower(text)
                    == "jpeg"@ || lower(text) == "png"@ || lower(text) == "webp"@),
        ).len(),
    decreases files.len(),
{
    reveal(Seq::filter);
    if files.len() > 0 {
        law_images_are_counted(files.drop_last());
    }
}

/// What validation warns of: how many images lie under the directory of the documents, where there
/// are any.
pub proof fn law_warnings(files: Seq<Seq<char>>)
    ensures
        image_count(files) == 0 ==> generated_warnings(files) == Seq::<Seq<char>>::empty(),
        image_count(files) > 0 ==> generated_warnings(files) == seq![
            "found generated image(s) under vpr: "@ + decimal(image_count(files)),
        ],
{
}

/// Each count is found under its name, and under no other.
pub proof fn law_named_counts(counts: ValidationCounts)
    ensures
        counts.named("tiles"@) == Some(counts.tiles),
        counts.named("patches"@) == Some(counts.patches),
        counts.named("variants"@) == Some(counts.variants),
        counts.named("places"@) == Some(counts.places),
        counts.named("query_tiles"@) == Some(counts.query_tiles),
        counts.named("reference_tiles"@) == Some(counts.reference_tiles),
        counts.named("warnings"@) == Some(counts.warnings),
        counts.named("errors"@) == Some(counts.errors),
        forall|name: Seq<char>|
            (#[trigger] counts.named(name)) is Some ==> name == "tiles"@ || name == "patches"@
                || name == "variants"@ || name == "places"@ || name == "query_tiles"@ || name
                == "reference_tiles"@ || name == "warnings"@ || name == "errors"@,
{
    reveal_strlit("tiles");
    reveal_strlit("patches");
    reveal_strlit("variants");
    reveal_strlit("places");
    reveal_strlit("query_tiles");
    reveal_strlit("reference_tiles");
    reveal_strlit("warnings");
    reveal_strlit("errors");
    assert("tiles"@.len() == 5 && "patches"@.len() == 7 && "variants"@.len() == 8);
    assert("places"@.len() == 6 && "query_tiles"@.len() == 11 && "reference_tiles"@.len() == 15);
    assert("warnings"@.len() == 8 && "errors"@.len() == 6);
    assert("variants"@[0] == 'v' && "warnings"@[0] == 'w');
    assert("places"@[0] == 'p' && "errors"@[0] == 'e');
}

/// What validation says of names: an item without one, and one with a name that an earlier item of
/// its kind has.
pub proof fn law_reported_names(
    kind: Seq<char>,
    items: Seq<JsonView>,
    field: Seq<char>,
    item: JsonView,
)
    ensures
        id_errors(kind, Seq::<JsonView>::empty(), field) == Seq::<Seq<char>>::empty(),
        !(item.field(field) matches Some(JsonView::Text(_))) ==> id_errors(
            kind,
            items.push(item),
            field,
        ) == id_errors(kind, items, field).push(kind + " missing "@ + field),
        item.field(field) matches Some(JsonView::Text(id)) ==> {
            let known = exists|i: int|
                0 <= i < items.len() && (#[trigger] items[i]).field(field) == Some(
                    JsonView::Text(id),
                );
            &&& known ==> id_errors(kind, items.push(item), field) == id_errors(
                kind,
                items,
                field,
            ).push("duplicate "@ + kind + " id: "@ + id)
            &&& !known ==> id_errors(kind, items.push(item), field) == id_errors(kind, items, field)
        },
{
    assert(items.push(item).drop_last() =~= items);
    if let Some(JsonView::Text(id)) = item.field(field) {
        lemma_known(items, field, id);
    }
}

proof fn lemma_known(items: Seq<JsonView>, field: Seq<char>, id: Seq<char>)
    ensures
        id_known(items, field, id) <==> exists|i: int|
            0 <= i < items.len() && (#[trigger] items[i]).field(field) == Some(JsonView::Text(id)),
{
    if id_known(items, field, id) {
        let i = choose|i: int|
            0 <= i < items.len() && (#[trigger] items[i]).field_text(field) == Some(id);
        assert(items[i].field(field) == Some(JsonView::Text(id)));
    }
    if exists|i: int|
        0 <= i < items.len() && (#[trigger] items[i]).field(field) == Some(JsonView::Text(id)) {
        let i = choose|i: int|
            0 <= i < items.len() && (#[trigger] items[i]).field(field) == Some(JsonView::Text(id));
        assert(items[i].field_text(field) == Some(id));
    }
}

proof fn lemma_earlier_tiles(tiles: Seq<JsonView>, present: Seq<bool>, other: Seq<bool>)
    requires
        tiles.len() <= present.len(),
        tiles.len() <= other.len(),
        forall|i: int| 0 <= i < tiles.len() ==> present[i] == #[trigger] other[i],
    ensures
        tile_errors(tiles, present) == tile_errors(tiles, other),
    decreases tiles.len(),
{
    if tiles.len() > 0 {
        lemma_earlier_tiles(tiles.drop_last(), present, other);
        assert(present[tiles.len() - 1] == other[tiles.len() - 1]);
    }
}

/// What validation says of an image, after what it says of those before it: that it has no path or
/// its file is not there, then that its box is not valid, then that its width or its height is not.
pub proof fn law_reported_images(
    tiles: Seq<JsonView>,
    present: Seq<bool>,
    tile: JsonView,
    id: Seq<char>,
    path: Seq<char>,
    here: bool,
)
    requires
        present.len() == tiles.len(),
        tile.field("tile_id"@) == Some(JsonView::Text(id)),
        tile.field("path"@) == Some(JsonView::Text(path)),
    ensures
        tile_errors(Seq::<JsonView>::empty(), present) == Seq::<Seq<char>>::empty(),
        tile_errors(tiles.push(tile), present.push(here)) == tile_errors(tiles, present) + (if here
            && path.len() > 0 {
            Seq::<Seq<char>>::empty()
        } else {
            seq!["missing source image for tile "@ + id + ": "@ + path]
        }) + (if bbox_valid(tile.field("bbox"@)) {
            Seq::<Seq<char>>::empty()
        } else {
            seq!["invalid bbox for tile "@ + id]
        }) + (if count_positive(tile.field("image_width"@)) && count_positive(
            tile.field("image_height"@),
        ) {
            Seq::<Seq<char>>::empty()
        } else {
            seq!["invalid image dimensions for tile "@ + id]
        }),
{
    assert(tiles.push(tile).drop_last() =~= tiles);
    lemma_earlier_tiles(tiles, present, present.push(here));
    assert(tile_errors(tiles.push(tile), present.push(here)) =~= tile_errors(tiles, present)
        + tile_faults(tile, here));
    let front = tile_errors(tiles, present);
    let a = unless(path.len() > 0 && here, "missing source image for tile "@ + id + ": "@ + path);
    let b = unless(bbox_valid(tile.field("bbox"@)), "invalid bbox for tile "@ + id);
    let c = unless(
        count_positive(tile.field("image_width"@)) && count_positive(tile.field("image_height"@)),
        "invalid image dimensions for tile "@ + id,
    );
    assert(front + (a + b + c) =~= front + a + b + c);
}

/// An image without a text for its path is not there, whatever is said of its file.
pub proof fn law_images_without_path(tile: JsonView, present: bool)
    requires
        !(tile.field("path"@) matches Some(JsonView::Text(_))),
    ensures
        tile_faults(tile, present).len() > 0,
        tile.field("tile_id"@) matches Some(JsonView::Text(id)) ==> tile_faults(tile, present)[0]
            == "missing source image for tile "@ + id + ": "@,
{
    assert forall|text: Seq<char>| #[trigger] (text + Seq::<char>::empty()) == text by {
        assert(text + Seq::<char>::empty() =~= text);
    }
}

/// Names in a list that no item has are reported one by one, each behind the same words; an item of
/// the list that is no text counts as the empty name.
pub proof fn law_reported_references(
    list: Seq<JsonView>,
    items: Seq<JsonView>,
    field: Seq<char>,
    before: Seq<char>,
    name: JsonView,
)
    ensures
        unknown_ids(Seq::<JsonView>::empty(), items, field, before) == Seq::<Seq<char>>::empty(),
        ({
            let text = match name {
                JsonView::Text(text) => text,
                _ => Seq::<char>::empty(),
            };
            let known = exists|i: int|
                0 <= i < items.len() && (#[trigger] items[i]).field(field) == Some(
                    JsonView::Text(text),
                );
            &&& known ==> unknown_ids(list.push(name), items, field, before) == unknown_ids(
                list,
                items,
                field,
                before,
            )
            &&& !known ==> unknown_ids(list.push(name), items, field, before) == unknown_ids(
                list,
                items,
                field,
                before,
            ).push(before + text)
        }),
{
    assert(list.push(name).drop_last() =~= list);
    let front = unknown_ids(list, items, field, before);
    lemma_known(items, field, item_text(name));
    assert(front + Seq::<Seq<char>>::empty() =~= front);
    assert(front + seq![before + item_text(name)] =~= front.push(before + item_text(name)));
}

/// What validation says of a mosaic, after what it says of those before it: that its box is not
/// valid, and which of its images are not there.
pub proof fn law_reported_mosaics(
    patches: Seq<JsonView>,
    tiles: Seq<JsonView>,
    patch: JsonView,
    id: Seq<char>,
    sources: Seq<JsonView>,
)
    requires
        patch.field("patch_id"@) == Some(JsonView::Text(id)),
        patch.field("source_tile_ids"@) == Some(JsonView::List(sources)) || !(patch.field(
            "source_tile_ids"@,
        ) matches Some(JsonView::List(_))) && patch.field("source_tiles"@) == Some(
            JsonView::List(sources),
        ),
    ensures
        patch_errors(Seq::<JsonView>::empty(), tiles) == Seq::<Seq<char>>::empty(),
        patch_errors(patches.push(patch), tiles) == patch_errors(patches, tiles) + (if bbox_valid(
            patch.field("bbox"@),
        ) {
            Seq::<Seq<char>>::empty()
        } else {
            seq!["invalid bbox for patch "@ + id]
        }) + unknown_ids(
            sources,
            tiles,
            "tile_id"@,
            "patch "@ + id + " references missing tile "@,
        ),
{
    assert(patches.push(patch).drop_last() =~= patches);
    let front = patch_errors(patches, tiles);
    let a = unless(bbox_valid(patch.field("bbox"@)), "invalid bbox for patch "@ + id);
    let b = unknown_ids(
        sources,
        tiles,
        "tile_id"@,
        "patch "@ + id + " references missing tile "@,
    );
    assert(front + (a + b) =~= front + a + b);
}

/// What validation says of a variant, after what it says of those before it: that its mosaic is not
/// there.
pub proof fn law_reported_variants(
    variants: Seq<JsonView>,
    patches: Seq<JsonView>,
    variant: JsonView,
    id: Seq<char>,
    patch: Seq<char>,
)
    requires
        variant.field("variant_id"@) == Some(JsonView::Text(id)),
        variant.field("patch_id"@) == Some(JsonView::Text(patch)),
    ensures
        variant_errors(Seq::<JsonView>::empty(), patches) == Seq::<Seq<char>>::empty(),
        ({
            let known = exists|i: int|
                0 <= i < patches.len() && (#[trigger] patches[i]).field("patch_id"@) == Some(
                    JsonView::Text(patch),
                );
            &&& known ==> variant_errors(variants.push(variant), patches) == variant_errors(
                variants,
                patches,
            )
            &&& !known ==> variant_errors(variants.push(variant), patches) == variant_errors(
                variants,
                patches,
            ).push("variant "@ + id + " references missing patch "@ + patch)
        }),
{
    assert(variants.push(variant).drop_last() =~= variants);
    lemma_known(patches, "patch_id"@, patch);
    let front = variant_errors(variants, patches);
    let text = "variant "@ + id + " references missing patch "@ + patch;
    assert(front + Seq::<Seq<char>>::empty() =~= front);
    assert(front + seq![text] =~= front.push(text));
}

/// What validation says of a place, after what it says of those before it: which of its images, of
/// its references, of its queries and of its mosaics are not there.
pub proof fn law_reported_places(
    places: Seq<JsonView>,
    tiles: Seq<JsonView>,
    patches: Seq<JsonView>,
    place: JsonView,
    id: Seq<char>,
    images: Seq<JsonView>,
    references: Seq<JsonView>,
    queries: Seq<JsonView>,
    mosaics: Seq<JsonView>,
)
    requires
        place.field("place_id"@) == Some(JsonView::Text(id)),
        place.field("tile_ids"@) == Some(JsonView::List(images)),
        place.field("reference_tile_ids"@) == Some(JsonView::List(references)),
        place.field("query_tile_ids"@) == Some(JsonView::List(queries)),
        place.field("patch_ids"@) == Some(JsonView::List(mosaics)),
    ensures
        place_errors(Seq::<JsonView>::empty(), tiles, patches) == Seq::<Seq<char>>::empty(),
        place_errors(places.push(place), tiles, patches) == place_errors(places, tiles, patches)
            + unknown_ids(
            images,
            tiles,
            "tile_id"@,
            "place "@ + id + " tile_ids references missing tile "@,
        ) + unknown_ids(
            references,
            tiles,
            "tile_id"@,
            "place "@ + id + " reference_tile_ids references missing tile "@,
        ) + unknown_ids(
            queries,
            tiles,
            "tile_id"@,
            "place "@ + id + " query_tile_ids references missing tile "@,
        ) + unknown_ids(
            mosaics,
            patches,
            "patch_id"@,
            "place "@ + id + " references missing patch "@,
        ),
{
    reveal_strlit(" ");
    reveal_strlit("tile_ids");
    reveal_strlit("reference_tile_ids");
    reveal_strlit("query_tile_ids");
    reveal_strlit(" references missing tile ");
    reveal_strlit(" tile_ids references missing tile ");
    reveal_strlit(" reference_tile_ids references missing tile ");
    reveal_strlit(" query_tile_ids references missing tile ");
    assert(places.push(place).drop_last() =~= places);
    assert("place "@ + id + " "@ + "tile_ids"@ + " references missing tile "@ =~= "place "@ + id
        + " tile_ids references missing tile "@);
    assert("place "@ + id + " "@ + "reference_tile_ids"@ + " references missing tile "@
        =~= "place "@ + id + " reference_tile_ids references missing tile "@);
    assert("place "@ + id + " "@ + "query_tile_ids"@ + " references missing tile "@ =~= "place "@
        + id + " query_tile_ids references missing tile "@);
    let front = place_errors(places, tiles, patches);
    let a = place_tile_faults(place, "tile_ids"@, tiles);
    let b = place_tile_faults(place, "reference_tile_ids"@, tiles);
    let c = place_tile_faults(place, "query_tile_ids"@, tiles);
    let d = unknown_ids(
        mosaics,
        patches,
        "patch_id"@,
        "place "@ + id + " references missing patch "@,
    );
    assert(front + (a + b + c + d) =~= front + a + b + c + d);
}

/// What validation says of the settings: each of the four flags that is not off, in this order.
pub proof fn law_reported_flags(config: JsonView)
    ensures
        flag_errors(config) == (if config.field("images_modified"@) == Some(JsonView::Bool(false)) {
            Seq::<Seq<char>>::empty()
        } else {
            seq!["dataset config "@ + "images_modified"@ + " must be false"@]
        }) + (if config.field("descriptors_computed"@) == Some(JsonView::Bool(false)) {
            Seq::<Seq<char>>::empty()
        } else {
            seq!["dataset config "@ + "descriptors_computed"@ + " must be false"@]
        }) + (if config.field("indexes_built"@) == Some(JsonView::Bool(false)) {
            Seq::<Seq<char>>::empty()
        } else {
            seq!["dataset config "@ + "indexes_built"@ + " must be false"@]
        }) + (if config.field("generated_images_default"@) == Some(JsonView::Bool(false)) {
            Seq::<Seq<char>>::empty()
        } else {
            seq!["dataset config "@ + "generated_images_default"@ + " must be false"@]
        }),
{
}

/// The order of what validation reports: first the names of images, mosaics, variants and places,
/// then images, mosaics, variants, places and settings; where it is strict, warnings come last.
pub proof fn law_order_of_reports(
    dataset: Dataset,
    present: Seq<bool>,
    generated: Seq<Seq<char>>,
    tiles: Seq<JsonView>,
    patches: Seq<JsonView>,
    variants: Seq<JsonView>,
    places: Seq<JsonView>,
)
    requires
        dataset.tiles@ == JsonView::List(tiles),
        dataset.patches@ == JsonView::List(patches),
        dataset.variants@ == JsonView::List(variants),
        dataset.places@ == JsonView::List(places),
    ensures
        errors_reported(dataset, present, generated, false) == id_errors(
            "tile"@,
            tiles,
            "tile_id"@,
        ) + id_errors("patch"@, patches, "patch_id"@) + id_errors(
            "variant"@,
            variants,
            "variant_id"@,
        ) + id_errors("place"@, places, "place_id"@) + tile_errors(tiles, present) + patch_errors(
            patches,
            tiles,
        ) + variant_errors(variants, patches) + place_errors(places, tiles, patches) + flag_errors(
            dataset.dataset@,
        ),
        errors_reported(dataset, present, generated, true) == errors_reported(
            dataset,
            present,
            generated,
            false,
        ) + generated_warnings(generated),
{
}

/// A document that is no list holds no items.
pub proof fn law_items_of_documents(document: JsonView)
    ensures
        document matches JsonView::List(items) ==> items_of(document) == items,
        !(document is List) ==> items_of(document) == Seq::<JsonView>::empty(),
{
}

/// How a document that cannot be read is reported: a missing one by its file, and one that is no
/// JSON by what was said of it.
pub proof fn law_load_reports(out: Seq<char>, error: LoadError)
    ensures
        error matches LoadError::Missing(i) ==> error.report(out) == "missing dataset manifest: "@
            + document_file(out, i as int) && error.number() == i,
        error matches LoadError::Malformed(i, fault) ==> error.report(out) == error_report(fault)
            && error.number() == i,
{
}

} // verus!
