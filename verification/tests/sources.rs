use depiction_map::ElementId;
use depiction_map::codec::encode_entry;
use depiction_map::map_entry::GeoPos;
use depiction_map::osm::guess_nature_from_tags;
use depiction_map::osm::osm_node_to_map_entry;
use depiction_map::wikidata::FetchDataWikidataSparql;
use depiction_map::wikidata::WikidataDocument;
use depiction_map::wikidata::WikidataDocumentResult;
use depiction_map::wikidata::WikidataElement;
use depiction_map::wikidata::WikidataError;
use depiction_map::wikidata::WikidataValue;
use depiction_map::wikidata::element_to_map_entry;
use depiction_map::wikidata::elements_to_record_set;
use depiction_map::wikidata::parse_wgs84_point;
use depiction_map::wikidata::qid_from_item_url;

fn val(s: &str) -> Option<WikidataValue> {
    Some(WikidataValue { value: Some(s.to_string()) })
}

fn empty_element() -> WikidataElement {
    WikidataElement {
        item: None,
        itemLabel: None,
        coords: None,
        coordsApproxP1_0: None,
        coordsApproxP1_1: None,
        coordsApproxP2_0: None,
        coordsApproxC1_0_0: None,
        coordsApproxC1_0_1: None,
        image: None,
        placeLabel: None,
        natureLabel: None,
        isInExhibit: None,
    }
}

#[test]
fn point_literals_parse_to_nanodegrees() {
    let p = parse_wgs84_point("Point(2.35 48.85)").unwrap();
    assert_eq!(p.lon_nanodeg, 2_350_000_000);
    assert_eq!(p.lat_nanodeg, 48_850_000_000);

    let q = parse_wgs84_point("http://www.wikidata.org/entity/Point(-0.5 51)").unwrap();
    assert_eq!(q.lon_nanodeg, -500_000_000);
    assert_eq!(q.lat_nanodeg, 51_000_000_000);

    assert!(parse_wgs84_point("nothing here").is_none());
    assert!(parse_wgs84_point("Point(12)").is_none());
}

#[test]
fn oversized_coordinates_are_refused() {
    assert!(parse_wgs84_point("Point(99999999999 1)").is_none());
}

#[test]
fn fractional_digits_beyond_nine_are_dropped() {
    let p = parse_wgs84_point("Point(0.1234567891234 1)").unwrap();
    assert_eq!(p.lon_nanodeg, 123_456_789);
    assert_eq!(p.lat_nanodeg, 1_000_000_000);
}

#[test]
fn truth_values_ignore_casing() {
    let t = WikidataValue { value: Some("True".to_string()) };
    assert!(t.is_true());
    assert!(!t.is_false());
    let f = WikidataValue { value: Some("FALSE".to_string()) };
    assert!(f.is_false());
    assert!(!f.is_true());
    let none = WikidataValue { value: None };
    assert!(!none.is_true());
    assert!(!none.is_false());
}

#[test]
fn coordinate_columns_are_tried_in_preference_order() {
    let mut e = empty_element();
    e.coordsApproxP2_0 = val("Point(3 4)");
    e.coordsApproxP1_0 = val("Point(1 2)");
    assert_eq!(e.get_coord_value().unwrap(), "Point(1 2)");
    assert!(!e.is_direct_location());
    e.coords = val("Point(5 6)");
    assert_eq!(e.get_coord_value().unwrap(), "Point(5 6)");
    assert!(e.is_direct_location());
}

#[test]
fn qid_is_the_last_address_segment() {
    assert_eq!(qid_from_item_url("http://www.wikidata.org/entity/Q3561657"), "Q3561657");
    assert_eq!(qid_from_item_url("no-slash"), "no-slash");
}

#[test]
fn a_full_row_becomes_a_record() {
    let mut e = empty_element();
    e.item = val("http://www.wikidata.org/entity/Q42");
    e.itemLabel = val("town dragon");
    e.placeLabel = val("old town hall");
    e.coords = val("Point(2.35 48.85)");
    e.image = val("http://commons.wikimedia.org/wiki/Special:FilePath/Dragon.jpg");
    e.natureLabel = val("statue");
    e.isInExhibit = val("false");

    let m = element_to_map_entry(&e).unwrap();
    assert_eq!(m.name.as_deref(), Some("town dragon"));
    assert_eq!(m.location_name.as_deref(), Some("old town hall"));
    assert_eq!(m.source_url.as_deref(), Some("http://www.wikidata.org/entity/Q42"));
    assert_eq!(m.nature.as_deref(), Some("statue"));
    assert!(!m.is_in_exhibit);
    let p = m.pos.unwrap();
    assert_eq!(p.lat_nanodeg, 48_850_000_000);
    assert_eq!(p.lon_nanodeg, 2_350_000_000);
    let img = m.image.as_ref().unwrap();
    assert_eq!(img.url, "http://commons.wikimedia.org/wiki/Special:FilePath/Dragon.jpg");
    assert_eq!(
        img.credit_url.as_deref(),
        Some("https://commons.wikimedia.org/wiki/File:Dragon.jpg")
    );
    assert_eq!(img.credit_text.as_deref(), Some("from Wikimedia Commons"));
    assert_eq!(m.element_ids.len(), 1);
    assert!(matches!(&m.element_ids[0], ElementId::Wikidata(q) if q == "Q42"));
}

#[test]
fn a_row_without_coordinates_counts_as_exhibit() {
    let mut e = empty_element();
    e.item = val("http://www.wikidata.org/entity/Q7");
    let m = element_to_map_entry(&e).unwrap();
    assert!(m.is_in_exhibit);
    assert!(m.pos.is_none());
}

#[test]
fn a_row_without_an_item_address_is_refused() {
    let e = empty_element();
    assert!(matches!(element_to_map_entry(&e), Err(WikidataError::MissingItemUrl)));
}

#[test]
fn duplicate_rows_collapse_in_the_record_set() {
    let mut e1 = empty_element();
    e1.item = val("http://www.wikidata.org/entity/Q1");
    let e2 = e1.clone();
    let mut e3 = empty_element();
    e3.item = val("http://www.wikidata.org/entity/Q2");
    let doc = WikidataDocument {
        results: WikidataDocumentResult { bindings: vec![e1, e2, e3] },
    };
    let rs = elements_to_record_set(doc.get_elements()).unwrap();
    assert_eq!(rs.len(), 2);
}

#[test]
fn the_wikidata_source_always_configures() {
    let f = FetchDataWikidataSparql::new("SELECT 1".to_string(), "dragons".to_string()).unwrap();
    assert_eq!(f.title(), "dragons");
    assert_eq!(f.retry_every_nanos(), 10_800_000_000_000);
}

#[test]
fn nature_comes_from_the_artwork_type_tag() {
    let tags = vec![
        ("name".to_string(), "dragon".to_string()),
        ("artwork_type".to_string(), "sculpture".to_string()),
    ];
    assert_eq!(guess_nature_from_tags(&tags).as_deref(), Some("sculpture"));
    let no_tags = vec![("name".to_string(), "dragon".to_string())];
    assert!(guess_nature_from_tags(&no_tags).is_none());
}

#[test]
fn an_osm_node_becomes_a_record() {
    let tags = vec![("artwork_type".to_string(), "statue".to_string())];
    let m = osm_node_to_map_entry(
        123,
        GeoPos { lat_nanodeg: 1, lon_nanodeg: 2 },
        Some("wyvern".to_string()),
        &tags,
    );
    assert_eq!(m.source_url.as_deref(), Some("https://www.openstreetmap.org/node/123"));
    assert_eq!(m.name.as_deref(), Some("wyvern"));
    assert_eq!(m.nature.as_deref(), Some("statue"));
    assert!(!m.is_in_exhibit);
    assert!(matches!(&m.element_ids[0], ElementId::Osm(123)));
    // two equal nodes give byte-identical records
    let m2 = osm_node_to_map_entry(
        123,
        GeoPos { lat_nanodeg: 1, lon_nanodeg: 2 },
        Some("wyvern".to_string()),
        &tags,
    );
    assert_eq!(encode_entry(&m), encode_entry(&m2));
}
