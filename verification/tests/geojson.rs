use geodot::geojson::is_url;
use geodot::{
    parse_json, parse_json_bytes, polygon_from_geojson_str, Coordinate, Double, GeoJsonError,
    GeoJsonTextError, Json, JsonNumber,
};

fn point(lon: f64, lat: f64) -> Coordinate {
    Coordinate {
        lon: Double { bits: lon.to_bits() },
        lat: Double { bits: lat.to_bits() },
    }
}

fn fault(text: &str) -> GeoJsonError {
    match polygon_from_geojson_str(text) {
        Err(GeoJsonTextError::Geometry(error)) => error,
        other => panic!("unexpected outcome: {other:?}"),
    }
}

#[test]
fn reads_polygon_from_geojson_feature_collection() {
    let polygon = polygon_from_geojson_str(
        r#"{
                "type":"FeatureCollection",
                "features":[{
                    "type":"Feature",
                    "geometry":{
                        "type":"Polygon",
                        "coordinates":[[[37.6504,55.7304],[37.652,55.7304],[37.652,55.7297],[37.6504,55.7297],[37.6504,55.7304]]]
                    }
                }]
            }"#,
    )
    .unwrap();
    assert_eq!(
        &polygon[..4],
        &[
            point(37.6504, 55.7304),
            point(37.652, 55.7304),
            point(37.652, 55.7297),
            point(37.6504, 55.7297),
        ]
    );
    assert_eq!(polygon.len(), 5);
}

#[test]
fn reads_the_first_ring_of_a_multi_polygon() {
    let polygon = polygon_from_geojson_str(
        r#"{"type":"MultiPolygon","coordinates":[[[[1,2],[3.5,4],[-5,6]],[[9,9],[9,8],[8,8]]]]}"#,
    )
    .unwrap();
    assert_eq!(polygon, vec![point(1.0, 2.0), point(3.5, 4.0), point(-5.0, 6.0)]);
}

#[test]
fn takes_the_first_feature_with_a_polygon() {
    let polygon = polygon_from_geojson_str(
        r#"{"type":"FeatureCollection","features":[
            {"type":"Feature","geometry":{"type":"Point","coordinates":[0,0]}},
            {"type":"Feature","geometry":{"type":"Polygon","coordinates":[[[1,1],[2,1],[2,2]]]}},
            {"type":"Feature","geometry":{"type":"Polygon","coordinates":[[[7,7],[8,7],[8,8]]]}}
        ]}"#,
    )
    .unwrap();
    assert_eq!(polygon[0], point(1.0, 1.0));
}

#[test]
fn reports_each_fault_of_a_geojson_document() {
    assert_eq!(fault("{}"), GeoJsonError::NoPolygon);
    assert_eq!(fault(r#"{"type":"Feature"}"#), GeoJsonError::NoPolygon);
    assert_eq!(fault(r#"{"type":"Polygon"}"#), GeoJsonError::NoCoordinates);
    assert_eq!(fault(r#"{"type":"Polygon","coordinates":[]}"#), GeoJsonError::NoExteriorRing);
    assert_eq!(
        fault(r#"{"type":"Polygon","coordinates":[[1]]}"#),
        GeoJsonError::PointNotArray
    );
    assert_eq!(
        fault(r#"{"type":"Polygon","coordinates":[[["a",1]]]}"#),
        GeoJsonError::LongitudeNotNumber
    );
    assert_eq!(
        fault(r#"{"type":"Polygon","coordinates":[[[1]]]}"#),
        GeoJsonError::LatitudeNotNumber
    );
    assert_eq!(
        fault(r#"{"type":"Polygon","coordinates":[[[1,2],[3,4]]]}"#),
        GeoJsonError::TooFewPoints
    );
    assert!(matches!(polygon_from_geojson_str("{"), Err(GeoJsonTextError::Malformed(_))));
    assert_eq!(
        GeoJsonError::TooFewPoints.message(),
        "GeoJSON polygon requires at least three lon,lat coordinates"
    );
    assert_eq!(
        GeoJsonError::NoPolygon.message(),
        "GeoJSON does not contain a Polygon geometry"
    );
}

#[test]
fn tells_addresses_from_files() {
    assert!(is_url("http://example.com/a.json"));
    assert!(is_url("https://example.com/a.json"));
    assert!(!is_url("area.geojson"));
    assert!(!is_url("ftp://example.com"));
}

#[test]
fn documents_are_read_as_they_stand() {
    let document =
        parse_json(r#"{"a":null,"b":[true,-3,7,2.5,18446744073709551615],"c":"x"}"#).unwrap();
    assert!(matches!(document.get("a"), Some(Json::Null)));
    let list = document.get_list("b").unwrap();
    assert_eq!(list[0].as_bool(), Some(true));
    assert!(matches!(list[1], Json::Number(JsonNumber::Negative(-3))));
    assert_eq!(list[1].as_unsigned(), None);
    assert_eq!(f64::from_bits(list[1].as_double().unwrap().bits), -3.0);
    assert_eq!(list[2].as_unsigned(), Some(7));
    assert_eq!(f64::from_bits(list[2].as_double().unwrap().bits), 7.0);
    assert_eq!(list[3].as_unsigned(), None);
    assert_eq!(f64::from_bits(list[3].as_double().unwrap().bits), 2.5);
    assert_eq!(list[4].as_unsigned(), Some(u64::MAX));
    assert_eq!(document.get_text("c").map(|text| text.as_str()), Some("x"));
    assert!(document.get("d").is_none());
    assert!(parse_json("").is_err());
    let list = parse_json_bytes(b"[1, 2]").unwrap();
    assert_eq!(list.as_list().unwrap().len(), 2);
    assert!(parse_json_bytes(&[0xff]).is_err());
}
