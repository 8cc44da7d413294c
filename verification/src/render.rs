//! Which image shows a mosaic or a variant of it.
use crate::ids::{join_path, joined};
use crate::json::{
    Json, JsonView, error_report, error_text, json_of_bytes, json_views, parse_json_bytes,
};
use crate::text::same_text;
use crate::validate::patch_sources;
use vstd::prelude::*;
use vstd::string::StringExecFns;

verus! {

/// What was rendered, and where.
#[derive(Debug, Clone, PartialEq, Eq)]
pub struct RenderReport {
    pub source_path: String,
    pub output_path: String,
    pub bytes: usize,
}

/// The report of a source image that was copied to an output file.
pub fn render_report(
    source_path: String,
    output_path: String,
    data: &[u8],
) -> (report: RenderReport)
    ensures
        report.source_path@ == source_path@,
        report.output_path@ == output_path@,
        report.bytes == data@.len(),
{
    RenderReport { source_path, output_path, bytes: data.len() }
}

/// What is to be rendered.
#[derive(Debug)]
pub enum RenderRequest {
    Patch(String),
    Variant(String),
}

/// What a request asks for.
pub enum RequestView {
    Patch(Seq<char>),
    Variant(Seq<char>),
}

impl View for RenderRequest {
    type V = RequestView;

    open spec fn view(&self) -> RequestView {
        match self {
            RenderRequest::Patch(id) => RequestView::Patch(id@),
            RenderRequest::Variant(id) => RequestView::Variant(id@),
        }
    }
}

/// Why nothing can be rendered.
#[derive(Debug)]
pub enum RenderError {
    /// Not exactly one of a mosaic and a variant was asked for.
    NotOne,
    /// A document is no JSON.
    Malformed(serde_json::Error),
    VariantNotFound(String),
    PatchNotFound(String),
    NoSources,
    /// The mosaic does not consist of one image.
    NotSingle,
    SourceNotText,
    TileNotFound(String),
    NoPath,
}

/// What is at fault where nothing can be rendered.
pub enum RenderFault {
    NotOne,
    /// A document is no JSON; what was said of it.
    Malformed(Seq<char>),
    VariantNotFound(Seq<char>),
    PatchNotFound(Seq<char>),
    NoSources,
    NotSingle,
    SourceNotText,
    TileNotFound(Seq<char>),
    NoPath,
}

impl View for RenderError {
    type V = RenderFault;

    open spec fn view(&self) -> RenderFault {
        match self {
            RenderError::NotOne => RenderFault::NotOne,
            RenderError::Malformed(error) => RenderFault::Malformed(error_report(*error)),
            RenderError::VariantNotFound(id) => RenderFault::VariantNotFound(id@),
            RenderError::PatchNotFound(id) => RenderFault::PatchNotFound(id@),
            RenderError::NoSources => RenderFault::NoSources,
            RenderError::NotSingle => RenderFault::NotSingle,
            RenderError::SourceNotText => RenderFault::SourceNotText,
            RenderError::TileNotFound(id) => RenderFault::TileNotFound(id@),
            RenderError::NoPath => RenderFault::NoPath,
        }
    }
}

impl RenderFault {
    /// The report of the fault.
    pub open spec fn report(self) -> Seq<char> {
        match self {
            RenderFault::NotOne => "provide exactly one of patch_id or variant_id"@,
            RenderFault::Malformed(text) => text,
            RenderFault::VariantNotFound(id) => "variant not found: "@ + id,
            RenderFault::PatchNotFound(id) => "patch not found: "@ + id,
            RenderFault::NoSources => "patch has no source tiles"@,
            RenderFault::NotSingle => {
                "render currently supports one-source-tile virtual patches only"@
            },
            RenderFault::SourceNotText => "source tile id is not a string"@,
            RenderFault::TileNotFound(id) => "source tile not found: "@ + id,
            RenderFault::NoPath => "source tile has no path"@,
        }
    }
}

impl RenderError {
    /// The report of the error.
    pub fn message(&self) -> (text: String)
        ensures
            text@ == self@.report(),
    {
        match self {
            RenderError::NotOne => "provide exactly one of patch_id or variant_id".to_owned(),
            RenderError::Malformed(error) => error_text(error),
            RenderError::VariantNotFound(id) => {
                let mut text = "variant not found: ".to_owned();
                text.append(id.as_str());
                text
            },
            RenderError::PatchNotFound(id) => {
                let mut text = "patch not found: ".to_owned();
                text.append(id.as_str());
                text
            },
            RenderError::NoSources => "patch has no source tiles".to_owned(),
            RenderError::NotSingle => {
                "render currently supports one-source-tile virtual patches only".to_owned()
            },
            RenderError::SourceNotText => "source tile id is not a string".to_owned(),
            RenderError::TileNotFound(id) => {
                let mut text = "source tile not found: ".to_owned();
                text.append(id.as_str());
                text
            },
            RenderError::NoPath => "source tile has no path".to_owned(),
        }
    }
}

/// Makes a request of the names on a command line: exactly one must be given.
pub fn render_request(patch_id: Option<&str>, variant_id: Option<&str>) -> (result: Result<
    RenderRequest,
    RenderError,
>)
    ensures
        match (patch_id, variant_id) {
            (Some(id), None) => result matches Ok(request) && request@ == RequestView::Patch(id@),
            (None, Some(id)) => result matches Ok(request) && request@ == RequestView::Variant(id@),
            _ => result matches Err(error) && error@ == RenderFault::NotOne,
        },
{
    match (patch_id, variant_id) {
        (Some(id), None) => Ok(RenderRequest::Patch(id.to_owned())),
        (None, Some(id)) => Ok(RenderRequest::Variant(id.to_owned())),
        _ => Err(RenderError::NotOne),
    }
}

/// The first of some items that has the name.
pub open spec fn first_named(items: Seq<JsonView>, field: Seq<char>, id: Seq<char>) -> Option<
    JsonView,
>
    decreases items.len(),
{
    if items.len() == 0 {
        None
    } else if items[0].field_text(field) == Some(id) {
        Some(items[0])
    } else {
        first_named(items.skip(1), field, id)
    }
}

/// The first item of a document that has the name, where the document is a list with one.
pub open spec fn item_named(document: JsonView, field: Seq<char>, id: Seq<char>) -> Option<
    JsonView,
> {
    match document.list() {
        Some(items) => first_named(items, field, id),
        None => None,
    }
}

/// The name of the mosaic that a request is about.
pub open spec fn requested_patch(variants: Option<JsonView>, request: RequestView) -> Result<
    Seq<char>,
    RenderFault,
> {
    match request {
        RequestView::Patch(id) => Ok(id),
        RequestView::Variant(id) => match variants {
            Some(variants) => match item_named(variants, "variant_id"@, id) {
                Some(variant) => match variant.field_text("patch_id"@) {
                    Some(patch) => Ok(patch),
                    None => Err(RenderFault::VariantNotFound(id)),
                },
                None => Err(RenderFault::VariantNotFound(id)),
            },
            None => Err(RenderFault::VariantNotFound(id)),
        },
    }
}

/// The path of the image that shows a mosaic: that of its only source.
pub open spec fn patch_image(patches: JsonView, tiles: JsonView, id: Seq<char>) -> Result<
    Seq<char>,
    RenderFault,
> {
    match item_named(patches, "patch_id"@, id) {
        None => Err(RenderFault::PatchNotFound(id)),
        Some(patch) => match patch_sources(patch) {
            None => Err(RenderFault::NoSources),
            Some(sources) => if sources.len() != 1 {
                Err(RenderFault::NotSingle)
            } else {
                match sources[0].text() {
                    None => Err(RenderFault::SourceNotText),
                    Some(source) => match item_named(tiles, "tile_id"@, source) {
                        None => Err(RenderFault::TileNotFound(source)),
                        Some(tile) => match tile.field_text("path"@) {
                            None => Err(RenderFault::NoPath),
                            Some(path) => Ok(path),
                        },
                    },
                }
            },
        },
    }
}

/// The path of the image that shows what a request asks for.
pub open spec fn requested_image(
    patches: JsonView,
    tiles: JsonView,
    variants: Option<JsonView>,
    request: RequestView,
) -> Result<Seq<char>, RenderFault> {
    match requested_patch(variants, request) {
        Err(fault) => Err(fault),
        Ok(id) => patch_image(patches, tiles, id),
    }
}

fn find_item<'a>(document: &'a Json, field: &str, id: &str) -> (found: Option<&'a Json>)
    ensures
        found is Some <==> item_named(document@, field@, id@) is Some,
        found matches Some(item) ==> item_named(document@, field@, id@) == Some(item@),
{
    let items = match document.as_list() {
        Some(items) => items,
        None => {
            return None;
        },
    };
    let ghost views = json_views(items@);
    let mut i: usize = 0;
    assert(views.skip(0) == views);
    while i < items.len()
        invariant
            0 <= i <= items@.len(),
            views == json_views(items@),
            document@.list() == Some(views),
            first_named(views, field@, id@) == first_named(views.skip(i as int), field@, id@),
        decreases items@.len() - i,
    {
        assert(views.skip(i as int)[0] == items@[i as int]@);
        if let Some(text) = items[i].get_text(field) {
            if same_text(text.as_str(), id) {
                return Some(&items[i]);
            }
        }
        assert(views.skip(i as int).skip(1) == views.skip(i + 1));
        i = i + 1;
    }
    None
}

/// Finds the path, below the output directory, of the image that shows what a request asks for.
pub fn find_image(
    patches: &Json,
    tiles: &Json,
    variants: Option<&Json>,
    request: &RenderRequest,
) -> (result: Result<String, RenderError>)
    ensures
        match requested_image(
            patches@,
            tiles@,
            match variants {
                Some(variants) => Some(variants@),
                None => None,
            },
            request@,
        ) {
            Ok(path) => result matches Ok(found) && found@ == path,
            Err(fault) => result matches Err(error) && error@ == fault,
        },
{
    let selected = match request {
        RenderRequest::Patch(id) => id.clone(),
        RenderRequest::Variant(id) => {
            let variant = match variants {
                Some(variants) => find_item(variants, "variant_id", id.as_str()),
                None => None,
            };
            let patch = match variant {
                Some(variant) => variant.get_text("patch_id"),
                None => None,
            };
            match patch {
                Some(patch) => patch.clone(),
                None => {
                    return Err(RenderError::VariantNotFound(id.clone()));
                },
            }
        },
    };
    let patch = match find_item(patches, "patch_id", selected.as_str()) {
        Some(patch) => patch,
        None => {
            return Err(RenderError::PatchNotFound(selected));
        },
    };
    let listed = match patch.get_list("source_tile_ids") {
        Some(items) => Some(items),
        None => patch.get_list("source_tiles"),
    };
    let sources = match listed {
        Some(sources) => sources,
        None => {
            return Err(RenderError::NoSources);
        },
    };
    if sources.len() != 1 {
        return Err(RenderError::NotSingle);
    }
    assert(json_views(sources@)[0] == sources@[0]@);
    let source = match sources[0].as_text() {
        Some(source) => source,
        None => {
            return Err(RenderError::SourceNotText);
        },
    };
    match find_item(tiles, "tile_id", source.as_str()) {
        None => Err(RenderError::TileNotFound(source.clone())),
        Some(tile) => match tile.get_text("path") {
            Some(path) => Ok(path.clone()),
            None => Err(RenderError::NoPath),
        },
    }
}

/// What the bytes of the documents give: the first that is no JSON is at fault, in the order
/// mosaics, images, variants. Variants are read only where one is asked for.
pub open spec fn rendered_image(
    patches: Seq<u8>,
    tiles: Seq<u8>,
    variants: Option<Seq<u8>>,
    request: RequestView,
) -> Result<Seq<char>, RenderFault> {
    match json_of_bytes(patches) {
        Err(text) => Err(RenderFault::Malformed(text)),
        Ok(patches) => match json_of_bytes(tiles) {
            Err(text) => Err(RenderFault::Malformed(text)),
            Ok(tiles) => match (request, variants) {
                (RequestView::Variant(_), Some(bytes)) => match json_of_bytes(bytes) {
                    Err(text) => Err(RenderFault::Malformed(text)),
                    Ok(variants) => requested_image(patches, tiles, Some(variants), request),
                },
                _ => requested_image(patches, tiles, None, request),
            },
        },
    }
}

/// Finds the path of the image that shows what a request asks for. The bytes are those of the
/// documents of mosaics, images and, for a variant, variants.
pub fn render_dataset(
    out: &str,
    patches: &[u8],
    tiles: &[u8],
    variants: Option<&[u8]>,
    request: &RenderRequest,
) -> (result: Result<String, RenderError>)
    ensures
        match rendered_image(
            patches@,
            tiles@,
            match variants {
                Some(bytes) => Some(bytes@),
                None => None,
            },
            request@,
        ) {
            Ok(path) => result matches Ok(found) && found@ == joined(out@, path),
            Err(fault) => result matches Err(error) && error@ == fault,
        },
{
    let patches = match parse_json_bytes(patches) {
        Ok(json) => json,
        Err(error) => {
            return Err(RenderError::Malformed(error));
        },
    };
    let tiles = match parse_json_bytes(tiles) {
        Ok(json) => json,
        Err(error) => {
            return Err(RenderError::Malformed(error));
        },
    };
    let found = match (request, variants) {
        (RenderRequest::Variant(_), Some(bytes)) => match parse_json_bytes(bytes) {
            Ok(variants) => find_image(&patches, &tiles, Some(&variants), request),
            Err(error) => Err(RenderError::Malformed(error)),
        },
        _ => find_image(&patches, &tiles, None, request),
    };
    match found {
        Ok(path) => Ok(join_path(out, path.as_str())),
        Err(error) => Err(error),
    }
}

/// A variant shows the image of its mosaic: rotations are not carried out.
pub proof fn law_variant_shows_its_patch(
    patches: JsonView,
    tiles: JsonView,
    variants: JsonView,
    variant: Seq<char>,
    patch: Seq<char>,
)
    requires
        item_named(variants, "variant_id"@, variant) matches Some(item) && item.field_text(
            "patch_id"@,
        ) == Some(patch),
    ensures
        requested_image(patches, tiles, Some(variants), RequestView::Variant(variant))
            == requested_image(patches, tiles, None, RequestView::Patch(patch)),
{
}

/// What a mosaic shows and what any variant of it shows is the same file, whatever the bytes of the
/// documents.
pub proof fn law_variants_render_alike(
    patches: Seq<u8>,
    tiles: Seq<u8>,
    variants: Seq<u8>,
    variant: Seq<char>,
    patch: Seq<char>,
)
    requires
        json_of_bytes(variants) matches Ok(document) && item_named(
            document,
            "variant_id"@,
            variant,
        ) matches Some(item) && item.field_text("patch_id"@) == Some(patch),
    ensures
        rendered_image(patches, tiles, Some(variants), RequestView::Variant(variant))
            == rendered_image(patches, tiles, None, RequestView::Patch(patch)),
{
    if let (Ok(patch_list), Ok(tile_list)) = (json_of_bytes(patches), json_of_bytes(tiles)) {
        law_variant_shows_its_patch(
            patch_list,
            tile_list,
            json_of_bytes(variants)->Ok_0,
            variant,
            patch,
        );
    }
}

/// The item with a name that no other item has is the one that is found.
pub proof fn lemma_first_named(items: Seq<JsonView>, field: Seq<char>, i: int)
    requires
        0 <= i < items.len(),
        items[i].field_text(field) is Some,
        forall|k: int|
            0 <= k < i ==> (#[trigger] items[k]).field_text(field) != items[i].field_text(field),
    ensures
        first_named(items, field, items[i].field_text(field)->0) == Some(items[i]),
    decreases items.len(),
{
    if i > 0 {
        let rest = items.skip(1);
        assert(items[0].field_text(field) != items[i].field_text(field));
        assert(rest[i - 1] == items[i]);
        assert forall|k: int| 0 <= k < i - 1 implies (#[trigger] rest[k]).field_text(field)
            != rest[i - 1].field_text(field) by {
            assert(rest[k] == items[k + 1]);
        }
        lemma_first_named(rest, field, i - 1);
    }
}

/// The item that is found is the first with the name; where none has it, none is found.
pub proof fn law_first_item_of_a_name(items: Seq<JsonView>, field: Seq<char>, id: Seq<char>, i: int)
    ensures
        0 <= i < items.len() && items[i].field(field) == Some(JsonView::Text(id)) && (forall|k: int|
            0 <= k < i ==> (#[trigger] items[k]).field(field) != Some(JsonView::Text(id)))
            ==> item_named(JsonView::List(items), field, id) == Some(items[i]),
        (forall|k: int|
            0 <= k < items.len() ==> (#[trigger] items[k]).field(field) != Some(JsonView::Text(id)))
            ==> item_named(JsonView::List(items), field, id) is None,
    decreases items.len(),
{
    assert forall|item: JsonView| (#[trigger] item.field_text(field)) == Some(id) <==> item.field(
        field,
    ) == Some(JsonView::Text(id)) by {}
    if items.len() > 0 {
        let rest = items.skip(1);
        law_first_item_of_a_name(rest, field, id, i - 1);
        assert(forall|k: int| 0 <= k < rest.len() ==> #[trigger] rest[k] == items[k + 1]);
        assert(items[0].field_text(field) == Some(id) <==> items[0].field(field) == Some(
            JsonView::Text(id),
        ));
    }
}

/// What is rendered of a mosaic: the file of its only source. The sources stand under
/// `source_tile_ids`, or under `source_tiles` where there is no such list.
pub proof fn law_rendered_mosaic(
    patches: JsonView,
    tiles: JsonView,
    id: Seq<char>,
    patch: JsonView,
    sources: Seq<JsonView>,
)
    ensures
        item_named(patches, "patch_id"@, id) is None ==> patch_image(patches, tiles, id) == Err::<
            Seq<char>,
            RenderFault,
        >(RenderFault::PatchNotFound(id)),
        item_named(patches, "patch_id"@, id) == Some(patch) ==> {
            let image = patch_image(patches, tiles, id);
            let first = patch.field("source_tile_ids"@);
            let second = patch.field("source_tiles"@);
            &&& !(first matches Some(JsonView::List(_))) && !(second matches Some(JsonView::List(_)))
                ==> image == Err::<Seq<char>, RenderFault>(RenderFault::NoSources)
            &&& first == Some(JsonView::List(sources)) || !(first matches Some(JsonView::List(_)))
                && second == Some(JsonView::List(sources)) ==> {
                &&& sources.len() != 1 ==> image == Err::<Seq<char>, RenderFault>(
                    RenderFault::NotSingle,
                )
                &&& sources.len() == 1 && !(sources[0] is Text) ==> image == Err::<
                    Seq<char>,
                    RenderFault,
                >(RenderFault::SourceNotText)
                &&& sources.len() == 1 && sources[0] is Text ==> {
                    let source = sources[0]->Text_0;
                    match item_named(tiles, "tile_id"@, source) {
                        None => image == Err::<Seq<char>, RenderFault>(
                            RenderFault::TileNotFound(source),
                        ),
                        Some(tile) => match tile.field("path"@) {
                            Some(JsonView::Text(path)) => image == Ok::<Seq<char>, RenderFault>(
                                path,
                            ),
                            _ => image == Err::<Seq<char>, RenderFault>(RenderFault::NoPath),
                        },
                    }
                }
            }
        },
{
}

/// A mosaic is asked for by its own name; a variant stands for the mosaic that it names, and is not
/// found where it is not listed, names no mosaic, or there is no list.
pub proof fn law_requested_mosaic(variants: JsonView, id: Seq<char>, variant: JsonView)
    ensures
        forall|list: Option<JsonView>| #[trigger]
            requested_patch(list, RequestView::Patch(id)) == Ok::<Seq<char>, RenderFault>(id),
        requested_patch(None, RequestView::Variant(id)) == Err::<Seq<char>, RenderFault>(
            RenderFault::VariantNotFound(id),
        ),
        item_named(variants, "variant_id"@, id) is None ==> requested_patch(
            Some(variants),
            RequestView::Variant(id),
        ) == Err::<Seq<char>, RenderFault>(RenderFault::VariantNotFound(id)),
        item_named(variants, "variant_id"@, id) == Some(variant) ==> requested_patch(
            Some(variants),
            RequestView::Variant(id),
        ) == (match variant.field("patch_id"@) {
            Some(JsonView::Text(patch)) => Ok::<Seq<char>, RenderFault>(patch),
            _ => Err(RenderFault::VariantNotFound(id)),
        }),
{
}

/// How the faults of a rendering are reported.
pub proof fn law_render_reports(text: Seq<char>)
    ensures
        RenderFault::NotOne.report() == "provide exactly one of patch_id or variant_id"@,
        RenderFault::Malformed(text).report() == text,
        RenderFault::VariantNotFound(text).report() == "variant not found: "@ + text,
        RenderFault::PatchNotFound(text).report() == "patch not found: "@ + text,
        RenderFault::NoSources.report() == "patch has no source tiles"@,
        RenderFault::NotSingle.report()
            == "render currently supports one-source-tile virtual patches only"@,
        RenderFault::SourceNotText.report() == "source tile id is not a string"@,
        RenderFault::TileNotFound(text).report() == "source tile not found: "@ + text,
        RenderFault::NoPath.report() == "source tile has no path"@,
{
}

/// The first document that is no JSON is at fault: mosaics before images, and images before
/// variants, which are not read where a mosaic is asked for.
pub proof fn law_first_malformed_document(
    patches: Seq<u8>,
    tiles: Seq<u8>,
    variants: Seq<u8>,
    id: Seq<char>,
    request: RequestView,
)
    ensures
        json_of_bytes(patches) matches Err(text) ==> rendered_image(
            patches,
            tiles,
            Some(variants),
            request,
        ) == Err::<Seq<char>, RenderFault>(RenderFault::Malformed(text)),
        json_of_bytes(patches) is Ok ==> (json_of_bytes(tiles) matches Err(text) ==> rendered_image(
            patches,
            tiles,
            Some(variants),
            request,
        ) == Err::<Seq<char>, RenderFault>(RenderFault::Malformed(text))),
        json_of_bytes(patches) is Ok && json_of_bytes(tiles) is Ok ==> (json_of_bytes(
            variants,
        ) matches Err(text) ==> rendered_image(
            patches,
            tiles,
            Some(variants),
            RequestView::Variant(id),
        ) == Err::<Seq<char>, RenderFault>(RenderFault::Malformed(text))),
        rendered_image(patches, tiles, Some(variants), RequestView::Patch(id)) == rendered_image(
            patches,
            tiles,
            None,
            RequestView::Patch(id),
        ),
        json_of_bytes(patches) is Ok && json_of_bytes(tiles) is Ok ==> rendered_image(
            patches,
            tiles,
            None,
            RequestView::Patch(id),
        ) == patch_image(json_of_bytes(patches)->Ok_0, json_of_bytes(tiles)->Ok_0, id),
{
}

} // verus!
