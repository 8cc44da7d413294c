//! The polygon of a GeoJSON document.
use crate::json::{
    Json, JsonView, error_report, error_text, json_of_text, json_views, lemma_field_decreases,
    parse_json,
};
use crate::text::{same_text, starts_with};
use crate::tile::Coordinate;
use vstd::prelude::*;

verus! {

/// Why a GeoJSON document has no usable polygon.
#[derive(Debug, Clone, Copy, PartialEq, Eq, Structural)]
pub enum GeoJsonError {
    NoPolygon,
    NoCoordinates,
    NoExteriorRing,
    PointNotArray,
    LongitudeNotNumber,
    LatitudeNotNumber,
    TooFewPoints,
}

impl GeoJsonError {
    /// The report of the error.
    pub open spec fn report(self) -> Seq<char> {
        match self {
            GeoJsonError::NoPolygon => "GeoJSON does not contain a Polygon geometry"@,
            GeoJsonError::NoCoordinates => "GeoJSON geometry is missing coordinates"@,
            GeoJsonError::NoExteriorRing => "GeoJSON polygon is missing an exterior ring"@,
            GeoJsonError::PointNotArray => "GeoJSON coordinates must be lon,lat arrays"@,
            GeoJsonError::LongitudeNotNumber => "GeoJSON longitude must be a number"@,
            GeoJsonError::LatitudeNotNumber => "GeoJSON latitude must be a number"@,
            GeoJsonError::TooFewPoints => {
                "GeoJSON polygon requires at least three lon,lat coordinates"@
            },
        }
    }

    /// The report of the error.
    pub fn message(&self) -> (text: String)
        ensures
            text@ == self.report(),
    {
        match self {
            GeoJsonError::NoPolygon => "GeoJSON does not contain a Polygon geometry".to_owned(),
            GeoJsonError::NoCoordinates => "GeoJSON geometry is missing coordinates".to_owned(),
            GeoJsonError::NoExteriorRing => {
                "GeoJSON polygon is missing an exterior ring".to_owned()
            },
            GeoJsonError::PointNotArray => {
                "GeoJSON coordinates must be lon,lat arrays".to_owned()
            },
            GeoJsonError::LongitudeNotNumber => "GeoJSON longitude must be a number".to_owned(),
            GeoJsonError::LatitudeNotNumber => "GeoJSON latitude must be a number".to_owned(),
            GeoJsonError::TooFewPoints => {
                "GeoJSON polygon requires at least three lon,lat coordinates".to_owned()
            },
        }
    }
}

/// Why a text gives no polygon: it is no JSON, or its document has no usable polygon.
#[derive(Debug)]
pub enum GeoJsonTextError {
    Malformed(serde_json::Error),
    Geometry(GeoJsonError),
}

impl GeoJsonTextError {
    /// The report of the error.
    pub open spec fn report(self) -> Seq<char> {
        match self {
            GeoJsonTextError::Malformed(error) => error_report(error),
            GeoJsonTextError::Geometry(error) => error.report(),
        }
    }

    /// The report of the error.
    pub fn message(&self) -> (text: String)
        ensures
            text@ == self.report(),
    {
        match self {
            GeoJsonTextError::Malformed(error) => error_text(error),
            GeoJsonTextError::Geometry(error) => error.message(),
        }
    }
}

/// The first polygon geometry of a document: the document itself, the geometry of a feature, or
/// that of the first feature of a collection that has one.
pub open spec fn polygon_geometry(value: JsonView) -> Option<JsonView>
    decreases value,
{
    proof {
        lemma_field_decreases(value, "geometry"@);
        lemma_field_decreases(value, "features"@);
    }
    match value.field_text("type"@) {
        Some(kind) => if kind == "Polygon"@ || kind == "MultiPolygon"@ {
            Some(value)
        } else if kind == "Feature"@ {
            match value.field("geometry"@) {
                Some(geometry) => polygon_geometry(geometry),
                None => None,
            }
        } else if kind == "FeatureCollection"@ {
            match value.field_list("features"@) {
                Some(features) => first_geometry(features),
                None => None,
            }
        } else {
            None
        },
        None => None,
    }
}

/// The polygon geometry of the first item that has one.
pub open spec fn first_geometry(items: Seq<JsonView>) -> Option<JsonView>
    decreases items,
{
    if items.len() == 0 {
        None
    } else {
        match polygon_geometry(items[0]) {
            Some(geometry) => Some(geometry),
            None => first_geometry(items.subrange(1, items.len() as int)),
        }
    }
}

/// Finds the first polygon geometry of a document.
fn find_polygon_geometry(value: &Json) -> (found: Option<&Json>)
    ensures
        found is Some <==> polygon_geometry(value@) is Some,
        found matches Some(geometry) ==> polygon_geometry(value@) == Some(geometry@),
    decreases value@,
{
    proof {
        lemma_field_decreases(value@, "geometry"@);
        lemma_field_decreases(value@, "features"@);
    }
    let kind = match value.get_text("type") {
        Some(kind) => kind,
        None => {
            return None;
        },
    };
    if same_text(kind.as_str(), "Polygon") || same_text(kind.as_str(), "MultiPolygon") {
        return Some(value);
    }
    if same_text(kind.as_str(), "Feature") {
        return match value.get("geometry") {
            Some(geometry) => find_polygon_geometry(geometry),
            None => None,
        };
    }
    if same_text(kind.as_str(), "FeatureCollection") {
        let features = match value.get_list("features") {
            Some(features) => features,
            None => {
                return None;
            },
        };
        let ghost views = json_views(features@);
        let mut i: usize = 0;
        assert(views.subrange(0, views.len() as int) == views);
        while i < features.len()
            invariant
                0 <= i <= features@.len(),
                views == json_views(features@),
                first_geometry(views) == first_geometry(
                    views.subrange(i as int, views.len() as int),
                ),
                decreases_to!(value@ => views),
                polygon_geometry(value@) == first_geometry(views),
            decreases features@.len() - i,
        {
            let ghost rest = views.subrange(i as int, views.len() as int);
            assert(rest[0] == features@[i as int]@);
            assert(decreases_to!(views => views[i as int]));
            match find_polygon_geometry(&features[i]) {
                Some(geometry) => {
                    return Some(geometry);
                },
                None => {},
            }
            assert(rest.subrange(1, rest.len() as int) == views.subrange(
                i + 1,
                views.len() as int,
            ));
            i = i + 1;
        }
        return None;
    }
    None
}

/// The first item of a list, where there is one.
pub open spec fn first_item(items: Seq<JsonView>) -> Option<JsonView> {
    if items.len() > 0 {
        Some(items[0])
    } else {
        None
    }
}

/// The first item of the list that the document is, where it is a list that has one.
pub open spec fn first_of(value: JsonView) -> Option<JsonView> {
    match value.list() {
        Some(items) => first_item(items),
        None => None,
    }
}

/// The points of the exterior ring: of the first ring of a polygon, or of the first ring of the
/// first polygon.
pub open spec fn exterior_ring(geometry: JsonView, coordinates: Seq<JsonView>) -> Option<
    Seq<JsonView>,
> {
    let ring = if geometry.field_text("type"@) == Some("Polygon"@) {
        first_item(coordinates)
    } else {
        match first_item(coordinates) {
            Some(polygon) => first_of(polygon),
            None => None,
        }
    };
    match ring {
        Some(points) => points.list(),
        None => None,
    }
}

/// The coordinate that an item of a ring stands for.
pub open spec fn ring_point(point: JsonView) -> Result<Coordinate, GeoJsonError> {
    match point.list() {
        None => Err(GeoJsonError::PointNotArray),
        Some(pair) => if pair.len() == 0 || pair[0].double() is None {
            Err(GeoJsonError::LongitudeNotNumber)
        } else if pair.len() == 1 || pair[1].double() is None {
            Err(GeoJsonError::LatitudeNotNumber)
        } else {
            Ok(Coordinate { lon: pair[0].double()->0, lat: pair[1].double()->0 })
        },
    }
}

/// The coordinates of a ring, or what is wrong with the first item that is no coordinate.
pub open spec fn ring_points(ring: Seq<JsonView>) -> Result<Seq<Coordinate>, GeoJsonError>
    decreases ring.len(),
{
    if ring.len() == 0 {
        Ok(Seq::<Coordinate>::empty())
    } else {
        match ring_points(ring.drop_last()) {
            Err(error) => Err(error),
            Ok(points) => match ring_point(ring.last()) {
                Err(error) => Err(error),
                Ok(point) => Ok(points.push(point)),
            },
        }
    }
}

/// The polygon of a document: the exterior ring of its first polygon geometry, with at least three
/// points.
pub open spec fn document_polygon(value: JsonView) -> Result<Seq<Coordinate>, GeoJsonError> {
    match polygon_geometry(value) {
        None => Err(GeoJsonError::NoPolygon),
        Some(geometry) => match geometry.field_list("coordinates"@) {
            None => Err(GeoJsonError::NoCoordinates),
            Some(coordinates) => match exterior_ring(geometry, coordinates) {
                None => Err(GeoJsonError::NoExteriorRing),
                Some(ring) => match ring_points(ring) {
                    Err(error) => Err(error),
                    Ok(points) => if points.len() < 3 {
                        Err(GeoJsonError::TooFewPoints)
                    } else {
                        Ok(points)
                    },
                },
            },
        },
    }
}

proof fn lemma_ring_points_prefix(ring: Seq<JsonView>, i: int)
    requires
        0 <= i <= ring.len(),
        ring_points(ring.take(i)) is Err,
    ensures
        ring_points(ring) == ring_points(ring.take(i)),
    decreases ring.len() - i,
{
    if i < ring.len() {
        assert(ring.take(i + 1).drop_last() == ring.take(i));
        lemma_ring_points_prefix(ring, i + 1);
    } else {
        assert(ring.take(i) == ring);
    }
}

fn read_ring_point(point: &Json) -> (result: Result<Coordinate, GeoJsonError>)
    ensures
        result == ring_point(point@),
{
    let pair = match point.as_list() {
        Some(pair) => pair,
        None => {
            return Err(GeoJsonError::PointNotArray);
        },
    };
    if pair.len() == 0 {
        return Err(GeoJsonError::LongitudeNotNumber);
    }
    assert(json_views(pair@)[0] == pair@[0]@);
    let lon = match pair[0].as_double() {
        Some(lon) => lon,
        None => {
            return Err(GeoJsonError::LongitudeNotNumber);
        },
    };
    if pair.len() == 1 {
        return Err(GeoJsonError::LatitudeNotNumber);
    }
    assert(json_views(pair@)[1] == pair@[1]@);
    match pair[1].as_double() {
        Some(lat) => Ok(Coordinate { lon, lat }),
        None => Err(GeoJsonError::LatitudeNotNumber),
    }
}

fn find_exterior_ring<'a>(geometry: &'a Json, coordinates: &'a Vec<Json>) -> (ring: Option<
    &'a Vec<Json>,
>)
    ensures
        ring is Some <==> exterior_ring(geometry@, json_views(coordinates@)) is Some,
        ring matches Some(points) ==> exterior_ring(geometry@, json_views(coordinates@)) == Some(
            json_views(points@),
        ),
{
    if coordinates.len() == 0 {
        return None;
    }
    let first = &coordinates[0];
    assert(json_views(coordinates@)[0] == first@);
    let is_polygon = match geometry.get_text("type") {
        Some(kind) => same_text(kind.as_str(), "Polygon"),
        None => false,
    };
    if is_polygon {
        return first.as_list();
    }
    match first.as_list() {
        Some(rings) => {
            if rings.len() == 0 {
                None
            } else {
                assert(json_views(rings@)[0] == rings@[0]@);
                rings[0].as_list()
            }
        },
        None => None,
    }
}

/// The polygon of a GeoJSON document.
pub fn polygon_from_geojson(value: &Json) -> (result: Result<Vec<Coordinate>, GeoJsonError>)
    ensures
        match result {
            Ok(points) => document_polygon(value@) == Ok::<Seq<Coordinate>, GeoJsonError>(points@),
            Err(error) => document_polygon(value@) == Err::<Seq<Coordinate>, GeoJsonError>(error),
        },
{
    let geometry = match find_polygon_geometry(value) {
        Some(geometry) => geometry,
        None => {
            return Err(GeoJsonError::NoPolygon);
        },
    };
    let coordinates = match geometry.get_list("coordinates") {
        Some(coordinates) => coordinates,
        None => {
            return Err(GeoJsonError::NoCoordinates);
        },
    };
    let ring = match find_exterior_ring(geometry, coordinates) {
        Some(ring) => ring,
        None => {
            return Err(GeoJsonError::NoExteriorRing);
        },
    };
    let ghost views = json_views(ring@);
    let mut points: Vec<Coordinate> = Vec::new();
    let mut i: usize = 0;
    while i < ring.len()
        invariant
            0 <= i <= ring@.len(),
            views == json_views(ring@),
            ring_points(views.take(i as int)) == Ok::<Seq<Coordinate>, GeoJsonError>(points@),
            ring_points(views) matches Err(error) ==> document_polygon(value@) == Err::<
                Seq<Coordinate>,
                GeoJsonError,
            >(error),
        decreases ring@.len() - i,
    {
        assert(views.take(i + 1).drop_last() == views.take(i as int));
        assert(views[i as int] == ring@[i as int]@);
        match read_ring_point(&ring[i]) {
            Ok(point) => {
                points.push(point);
            },
            Err(error) => {
                proof {
                    lemma_ring_points_prefix(views, i + 1);
                }
                return Err(error);
            },
        }
        i = i + 1;
    }
    assert(views.take(i as int) == views);
    if points.len() < 3 {
        return Err(GeoJsonError::TooFewPoints);
    }
    Ok(points)
}

/// The polygon of a GeoJSON text.
pub fn polygon_from_geojson_str(text: &str) -> (result: Result<Vec<Coordinate>, GeoJsonTextError>)
    ensures
        match json_of_text(text@) {
            Err(text) => result matches Err(GeoJsonTextError::Malformed(error)) && error_report(
                error,
            ) == text,
            Ok(document) => match document_polygon(document) {
                Ok(points) => result matches Ok(found) && found@ == points,
                Err(error) => result matches Err(GeoJsonTextError::Geometry(found)) && found
                    == error,
            },
        },
{
    match parse_json(text) {
        Err(error) => Err(GeoJsonTextError::Malformed(error)),
        Ok(document) => match polygon_from_geojson(&document) {
            Ok(points) => Ok(points),
            Err(error) => Err(GeoJsonTextError::Geometry(error)),
        },
    }
}

/// Whether a GeoJSON source is to be fetched from the network rather than read from a file.
pub fn is_url(source: &str) -> (answer: bool)
    ensures
        answer == ("http://"@.is_prefix_of(source@) || "https://"@.is_prefix_of(source@)),
{
    starts_with(source, "http://") || starts_with(source, "https://")
}

/// A feature has the polygon of its geometry.
pub proof fn law_feature_polygon(feature: JsonView, geometry: JsonView)
    requires
        feature.field_text("type"@) == Some("Feature"@),
        feature.field("geometry"@) == Some(geometry),
    ensures
        document_polygon(feature) == document_polygon(geometry),
{
    reveal_strlit("Polygon");
    reveal_strlit("MultiPolygon");
    reveal_strlit("Feature");
    assert("Feature"@.len() == 7 && "Polygon"@.len() == 7 && "MultiPolygon"@.len() == 12);
    assert("Feature"@[0] == 'F' && "Polygon"@[0] == 'P');
}

/// A collection has the polygon of its first feature with a polygon geometry.
pub proof fn law_collection_polygon(collection: JsonView, features: Seq<JsonView>, i: int)
    requires
        collection.field_text("type"@) == Some("FeatureCollection"@),
        collection.field_list("features"@) == Some(features),
        0 <= i < features.len(),
        polygon_geometry(features[i]) is Some,
        forall|k: int| 0 <= k < i ==> polygon_geometry(#[trigger] features[k]) is None,
    ensures
        document_polygon(collection) == document_polygon(features[i]),
{
    reveal_strlit("Polygon");
    reveal_strlit("MultiPolygon");
    reveal_strlit("Feature");
    reveal_strlit("FeatureCollection");
    assert("FeatureCollection"@.len() == 17);
    assert("Feature"@.len() == 7 && "Polygon"@.len() == 7 && "MultiPolygon"@.len() == 12);
    lemma_first_geometry(features, i);
}

proof fn lemma_first_geometry(items: Seq<JsonView>, i: int)
    requires
        0 <= i < items.len(),
        polygon_geometry(items[i]) is Some,
        forall|k: int| 0 <= k < i ==> polygon_geometry(#[trigger] items[k]) is None,
    ensures
        first_geometry(items) == polygon_geometry(items[i]),
    decreases items.len(),
{
    if i > 0 {
        let rest = items.subrange(1, items.len() as int);
        assert(polygon_geometry(items[0]) is None);
        assert(rest[i - 1] == items[i]);
        assert forall|k: int| 0 <= k < i - 1 implies polygon_geometry(#[trigger] rest[k]) is None by {
            assert(rest[k] == items[k + 1]);
        }
        lemma_first_geometry(rest, i - 1);
    }
}

/// A list of points, each a list of at least two numbers.
pub open spec fn numeric_pairs(ring: Seq<JsonView>) -> bool {
    forall|i: int|
        0 <= i < ring.len() ==> {
            &&& (#[trigger] ring[i]) matches JsonView::List(pair)
            &&& pair.len() >= 2
            &&& pair[0] is Number
            &&& pair[1] is Number
        }
}

proof fn lemma_numeric_ring(ring: Seq<JsonView>)
    requires
        numeric_pairs(ring),
    ensures
        ring_points(ring) matches Ok(points) && points.len() == ring.len() && forall|i: int|
            0 <= i < ring.len() ==> Some((#[trigger] points[i]).lon)
                == ring[i]->List_0[0].double() && Some(points[i].lat)
                == ring[i]->List_0[1].double(),
    decreases ring.len(),
{
    if ring.len() > 0 {
        let front = ring.drop_last();
        assert forall|i: int| 0 <= i < front.len() implies {
            &&& (#[trigger] front[i]) matches JsonView::List(pair)
            &&& pair.len() >= 2
            &&& pair[0] is Number
            &&& pair[1] is Number
        } by {
            assert(front[i] == ring[i]);
        }
        lemma_numeric_ring(front);
        assert(ring[ring.len() - 1] == ring.last());
    }
}

/// A polygon is its first ring, whatever rings follow: point by point, the first number of each
/// pair is the longitude and the second the latitude.
pub proof fn law_polygon_is_its_first_ring(
    document: JsonView,
    rings: Seq<JsonView>,
    ring: Seq<JsonView>,
)
    requires
        document.field("type"@) == Some(JsonView::Text("Polygon"@)),
        document.field("coordinates"@) == Some(JsonView::List(rings)),
        rings.len() > 0,
        rings[0] == JsonView::List(ring),
        ring.len() >= 3,
        numeric_pairs(ring),
    ensures
        document_polygon(document) matches Ok(points) && points.len() == ring.len() && forall|
            i: int,
        |
            0 <= i < ring.len() ==> Some((#[trigger] points[i]).lon)
                == ring[i]->List_0[0].double() && Some(points[i].lat)
                == ring[i]->List_0[1].double(),
{
    lemma_numeric_ring(ring);
}

/// The polygon of a row of polygons is the first ring of the first of them, whatever follows.
pub proof fn law_first_polygon_of_many(
    document: JsonView,
    polygons: Seq<JsonView>,
    rings: Seq<JsonView>,
    ring: Seq<JsonView>,
)
    requires
        document.field("type"@) == Some(JsonView::Text("MultiPolygon"@)),
        document.field("coordinates"@) == Some(JsonView::List(polygons)),
        polygons.len() > 0,
        polygons[0] == JsonView::List(rings),
        rings.len() > 0,
        rings[0] == JsonView::List(ring),
        ring.len() >= 3,
        numeric_pairs(ring),
    ensures
        document_polygon(document) matches Ok(points) && points.len() == ring.len() && forall|
            i: int,
        |
            0 <= i < ring.len() ==> Some((#[trigger] points[i]).lon)
                == ring[i]->List_0[0].double() && Some(points[i].lat)
                == ring[i]->List_0[1].double(),
{
    reveal_strlit("Polygon");
    reveal_strlit("MultiPolygon");
    assert("Polygon"@.len() == 7 && "MultiPolygon"@.len() == 12);
    lemma_numeric_ring(ring);
}

/// Two points are no polygon, however well they are written.
pub proof fn law_short_ring_is_refused(
    document: JsonView,
    rings: Seq<JsonView>,
    ring: Seq<JsonView>,
)
    requires
        document.field("type"@) == Some(JsonView::Text("Polygon"@)),
        document.field("coordinates"@) == Some(JsonView::List(rings)),
        rings.len() > 0,
        rings[0] == JsonView::List(ring),
        ring.len() < 3,
        numeric_pairs(ring),
    ensures
        document_polygon(document) == Err::<Seq<Coordinate>, GeoJsonError>(
            GeoJsonError::TooFewPoints,
        ),
{
    lemma_numeric_ring(ring);
}

/// The first point of a ring that is no pair of numbers decides the error: it is no list, its first
/// item is no number, or its second is none.
pub proof fn law_first_bad_point_decides(
    document: JsonView,
    rings: Seq<JsonView>,
    ring: Seq<JsonView>,
    i: int,
)
    requires
        document.field("type"@) == Some(JsonView::Text("Polygon"@)),
        document.field("coordinates"@) == Some(JsonView::List(rings)),
        rings.len() > 0,
        rings[0] == JsonView::List(ring),
        0 <= i < ring.len(),
        numeric_pairs(ring.take(i)),
    ensures
        !(ring[i] is List) ==> document_polygon(document) == Err::<Seq<Coordinate>, GeoJsonError>(
            GeoJsonError::PointNotArray,
        ),
        ring[i] matches JsonView::List(pair) && (pair.len() == 0 || !(pair[0] is Number))
            ==> document_polygon(document) == Err::<Seq<Coordinate>, GeoJsonError>(
            GeoJsonError::LongitudeNotNumber,
        ),
        ring[i] matches JsonView::List(pair) && pair.len() > 0 && pair[0] is Number && (pair.len()
            == 1 || !(pair[1] is Number)) ==> document_polygon(document) == Err::<
            Seq<Coordinate>,
            GeoJsonError,
        >(GeoJsonError::LatitudeNotNumber),
{
    lemma_numeric_ring(ring.take(i));
    assert(ring.take(i + 1).drop_last() == ring.take(i));
    assert(ring.take(i + 1).last() == ring[i]);
    let bad = match ring[i] {
        JsonView::List(pair) => !(pair.len() > 1 && pair[0] is Number && pair[1] is Number),
        _ => true,
    };
    if bad {
        assert(ring_points(ring.take(i + 1)) is Err);
        lemma_ring_points_prefix(ring, i + 1);
    }
}

/// A document that is neither a polygon nor holds one, one without coordinates and one without a
/// ring each give their own error.
pub proof fn law_documents_without_polygon(document: JsonView)
    ensures
        !(document.field("type"@) matches Some(JsonView::Text(_))) ==> document_polygon(document)
            == Err::<Seq<Coordinate>, GeoJsonError>(GeoJsonError::NoPolygon),
        document.field("type"@) matches Some(JsonView::Text(kind)) && kind != "Polygon"@ && kind
            != "MultiPolygon"@ && kind != "Feature"@ && kind != "FeatureCollection"@
            ==> document_polygon(document) == Err::<Seq<Coordinate>, GeoJsonError>(
            GeoJsonError::NoPolygon,
        ),
        document.field("type"@) == Some(JsonView::Text("Polygon"@)) && !(document.field(
            "coordinates"@,
        ) matches Some(JsonView::List(_))) ==> document_polygon(document) == Err::<
            Seq<Coordinate>,
            GeoJsonError,
        >(GeoJsonError::NoCoordinates),
        document.field("type"@) == Some(JsonView::Text("Polygon"@)) && (document.field(
            "coordinates"@,
        ) matches Some(JsonView::List(rings)) && (rings.len() == 0 || !(rings[0] is List)))
            ==> document_polygon(document) == Err::<Seq<Coordinate>, GeoJsonError>(
            GeoJsonError::NoExteriorRing,
        ),
{
}

/// A collection none of whose features has a polygon has none, and neither has a feature without a
/// geometry.
pub proof fn law_collections_without_polygon(document: JsonView, features: Seq<JsonView>)
    ensures
        document.field("type"@) == Some(JsonView::Text("FeatureCollection"@)) && document.field(
            "features"@,
        ) == Some(JsonView::List(features)) && (forall|i: int|
            0 <= i < features.len() ==> polygon_geometry(#[trigger] features[i]) is None)
            ==> document_polygon(document) == Err::<Seq<Coordinate>, GeoJsonError>(
            GeoJsonError::NoPolygon,
        ),
        document.field("type"@) == Some(JsonView::Text("FeatureCollection"@)) && !(document.field(
            "features"@,
        ) matches Some(JsonView::List(_))) ==> document_polygon(document) == Err::<
            Seq<Coordinate>,
            GeoJsonError,
        >(GeoJsonError::NoPolygon),
        document.field("type"@) == Some(JsonView::Text("Feature"@)) && document.field(
            "geometry"@,
        ) is None ==> document_polygon(document) == Err::<Seq<Coordinate>, GeoJsonError>(
            GeoJsonError::NoPolygon,
        ),
{
    reveal_strlit("Polygon");
    reveal_strlit("MultiPolygon");
    reveal_strlit("Feature");
    reveal_strlit("FeatureCollection");
    assert("FeatureCollection"@.len() == 17);
    assert("Feature"@.len() == 7 && "Polygon"@.len() == 7 && "MultiPolygon"@.len() == 12);
    assert("Feature"@[0] == 'F' && "Polygon"@[0] == 'P');
    if forall|i: int|
        0 <= i < features.len() ==> polygon_geometry(#[trigger] features[i]) is None {
        lemma_no_geometry(features);
    }
}

proof fn lemma_no_geometry(items: Seq<JsonView>)
    requires
        forall|i: int| 0 <= i < items.len() ==> polygon_geometry(#[trigger] items[i]) is None,
    ensures
        first_geometry(items) is None,
    decreases items.len(),
{
    if items.len() > 0 {
        let rest = items.subrange(1, items.len() as int);
        assert(polygon_geometry(items[0]) is None);
        assert forall|i: int| 0 <= i < rest.len() implies polygon_geometry(
            #[trigger] rest[i],
        ) is None by {
            assert(rest[i] == items[i + 1]);
        }
        lemma_no_geometry(rest);
    }
}

/// How the faults of a document are reported.
pub proof fn law_geojson_reports()
    ensures
        GeoJsonError::NoPolygon.report() == "GeoJSON does not contain a Polygon geometry"@,
        GeoJsonError::NoCoordinates.report() == "GeoJSON geometry is missing coordinates"@,
        GeoJsonError::NoExteriorRing.report() == "GeoJSON polygon is missing an exterior ring"@,
        GeoJsonError::PointNotArray.report() == "GeoJSON coordinates must be lon,lat arrays"@,
        GeoJsonError::LongitudeNotNumber.report() == "GeoJSON longitude must be a number"@,
        GeoJsonError::LatitudeNotNumber.report() == "GeoJSON latitude must be a number"@,
        GeoJsonError::TooFewPoints.report()
            == "GeoJSON polygon requires at least three lon,lat coordinates"@,
        GeoJsonTextError::Geometry(GeoJsonError::NoPolygon).report()
            == GeoJsonError::NoPolygon.report(),
{
}

} // verus!
