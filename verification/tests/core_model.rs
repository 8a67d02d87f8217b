use depiction_map::DepictionCategory;
use depiction_map::ElementId;
use depiction_map::MapEntry;
use depiction_map::MapEntryImageSource;
use depiction_map::codec::encode_entry;
use depiction_map::commit_log::CommitLog;
use depiction_map::map_entry::GeoPos;
use depiction_map::overrides::OverrideEntry;
use depiction_map::overrides::Overrides;
use depiction_map::record_set::RecordSet;
use depiction_map::storage::Storage;
use depiction_map::storage::StorageError;
use depiction_map::storage::check_safe_file_name;
use depiction_map::storage::decode_entries_full;

fn entry(name: &str) -> MapEntry {
    MapEntry {
        pos: None,
        name: Some(name.to_string()),
        location_name: None,
        image: None,
        source_url: None,
        is_in_exhibit: false,
        nature: None,
        element_ids: vec![ElementId::Osm(7)],
    }
}

fn same_entry(a: &MapEntry, b: &MapEntry) -> bool {
    encode_entry(a) == encode_entry(b)
}

#[test]
fn record_set_collapses_identical_records() {
    let mut s = RecordSet::new();
    s.insert(entry("a"));
    s.insert(entry("a"));
    s.insert(entry("b"));
    assert_eq!(s.len(), 2);
}

#[test]
fn record_set_order_is_insertion_independent() {
    let mut s1 = RecordSet::new();
    s1.insert(entry("a"));
    s1.insert(entry("b"));
    s1.insert(entry("c"));
    let mut s2 = RecordSet::new();
    s2.insert(entry("c"));
    s2.insert(entry("a"));
    s2.insert(entry("b"));
    let v1 = s1.entries_vec();
    let v2 = s2.entries_vec();
    assert_eq!(v1.len(), 3);
    assert_eq!(v2.len(), 3);
    for k in 0..3 {
        assert!(same_entry(&v1[k], &v2[k]));
    }
}

#[test]
fn record_set_from_records_deduplicates() {
    let s = RecordSet::from_records(vec![entry("x"), entry("x"), entry("y")]);
    assert_eq!(s.len(), 2);
}

#[test]
fn storage_rejects_unsafe_file_names() {
    assert!(matches!(
        Storage::new("../escape.json".to_string()),
        Err(StorageError::UnsafeFileName)
    ));
    assert!(matches!(
        Storage::new("a/b.json".to_string()),
        Err(StorageError::UnsafeFileName)
    ));
    assert!(matches!(
        Storage::new("".to_string()),
        Err(StorageError::UnsafeFileName)
    ));
    assert!(Storage::new("osm_dragon.json".to_string()).is_ok());
    assert!(check_safe_file_name(&"wikidata_dragon.json".to_string()));
    assert!(!check_safe_file_name(&"..".to_string()));
}

#[test]
fn storage_file_names_are_derived() {
    let s = Storage::new("osm_dragon.json".to_string()).unwrap();
    assert_eq!(s.get_storage_file(), "osm_dragon.json");
    assert_eq!(s.private_file_name(), "osm_dragon.json.private");
    assert_eq!(s.temp_file_name(), "osm_dragon.json.tmp");
}

#[test]
fn save_then_load_round_trips_records_and_refresh_time() {
    let mut s = Storage::new("src.json".to_string()).unwrap();
    let mut set = RecordSet::new();
    set.insert(entry("a"));
    set.insert(entry("b"));
    let expected: Vec<String> = set.entries_vec().iter().map(encode_entry).collect();
    s.data.public.entries = set;
    s.data.private.last_updated = Some(12345);
    let (public_payload, private_payload) = s.save();

    let mut fresh = Storage::new("src.json".to_string()).unwrap();
    fresh
        .load(Some(public_payload.as_str()), Some(private_payload.as_str()))
        .unwrap();
    assert_eq!(fresh.data.private.last_updated, Some(12345));
    let got: Vec<String> = fresh
        .data
        .public
        .entries
        .entries_vec()
        .iter()
        .map(encode_entry)
        .collect();
    assert_eq!(got, expected);
}

#[test]
fn load_with_missing_private_file_resets_refresh_time() {
    let mut s = Storage::new("src.json".to_string()).unwrap();
    let mut set = RecordSet::new();
    set.insert(entry("a"));
    s.data.public.entries = set;
    s.data.private.last_updated = Some(777);
    let (public_payload, _private_payload) = s.save();

    let mut fresh = Storage::new("src.json".to_string()).unwrap();
    fresh.load(Some(public_payload.as_str()), None).unwrap();
    assert_eq!(fresh.data.private.last_updated, None);
    assert_eq!(fresh.data.public.entries.len(), 1);

    let mut fresh2 = Storage::new("src.json".to_string()).unwrap();
    fresh2
        .load(Some(public_payload.as_str()), Some("not a refresh record"))
        .unwrap();
    assert_eq!(fresh2.data.private.last_updated, None);
}

#[test]
fn load_failures_are_reported_exactly() {
    let mut s = Storage::new("src.json".to_string()).unwrap();
    assert!(matches!(s.load(None, None), Err(StorageError::MissingPublicFile)));
    assert!(matches!(
        s.load(Some("not a record list"), None),
        Err(StorageError::MalformedPublicFile)
    ));
    assert!(decode_entries_full("garbage").is_none());
}

#[test]
fn trailing_text_after_a_record_list_is_refused() {
    let mut s = Storage::new("src.json".to_string()).unwrap();
    let mut set = RecordSet::new();
    set.insert(entry("a"));
    s.data.public.entries = set;
    let (public_payload, _) = s.save();
    let mut padded = public_payload.clone();
    padded.push('x');
    let mut fresh = Storage::new("src.json".to_string()).unwrap();
    assert!(matches!(
        fresh.load(Some(padded.as_str()), None),
        Err(StorageError::MalformedPublicFile)
    ));
    assert!(fresh.load(Some(public_payload.as_str()), None).is_ok());
}

#[test]
fn a_pretty_printed_content_file_still_loads() {
    let pretty = "[\n  {\n    \"pos\": [\n      48.85,\n      2.35\n    ],\n    \"name\": \"a dragon\",\n    \"location_name\": null,\n    \"image\": null,\n    \"source_url\": null,\n    \"is_in_exhibit\": false,\n    \"nature\": null,\n    \"element_ids\": [\n      {\n        \"Osm\": 1\n      }\n    ]\n  }\n]";
    let mut s = Storage::new("src.json".to_string()).unwrap();
    s.load(Some(pretty), None).unwrap();
    assert_eq!(s.data.public.entries.len(), 1);
    let v = s.data.public.entries.entries_vec();
    assert_eq!(v[0].name.as_deref(), Some("a dragon"));
    let p = v[0].pos.unwrap();
    assert_eq!(p.lat_nanodeg, 48_850_000_000);
    assert_eq!(p.lon_nanodeg, 2_350_000_000);
    assert!(matches!(&v[0].element_ids[0], ElementId::Osm(1)));
}

#[test]
fn the_saved_public_file_is_json() {
    let s = Storage::new("src.json".to_string()).unwrap();
    let (public_payload, private_payload) = s.save();
    assert_eq!(public_payload, "[]");
    assert_eq!(private_payload, "{\"last_updated\":null}");
}

#[test]
fn commit_log_skips_byte_identical_content() {
    let mut log = CommitLog::new();
    let path = "src.json".to_string();
    let first = log.record_save(&path, &"content-1".to_string(), &"Update s".to_string());
    assert!(first);
    assert_eq!(log.commits.len(), 1);
    let second = log.record_save(&path, &"content-1".to_string(), &"Update s".to_string());
    assert!(!second);
    assert_eq!(log.commits.len(), 1);
    let third = log.record_save(&path, &"content-2".to_string(), &"Update s".to_string());
    assert!(third);
    assert_eq!(log.commits.len(), 2);
}

#[test]
fn commit_log_tracks_paths_independently() {
    let mut log = CommitLog::new();
    assert!(log.record_save(&"a".to_string(), &"x".to_string(), &"m".to_string()));
    assert!(log.record_save(&"b".to_string(), &"x".to_string(), &"m".to_string()));
    assert!(!log.record_save(&"a".to_string(), &"x".to_string(), &"m".to_string()));
    assert_eq!(log.commits.len(), 2);
}

#[test]
fn get_override_looks_up_by_identity_kind() {
    let ov = Overrides {
        osm: vec![(
            5,
            OverrideEntry {
                local_image: Some("five.jpg".to_string()),
                image_source_url: None,
                image_source_text: None,
            },
        )],
        wikidata: vec![(
            "Q9".to_string(),
            OverrideEntry {
                local_image: None,
                image_source_url: Some("https://example.org/src".to_string()),
                image_source_text: None,
            },
        )],
    };
    assert!(ov.get_override(&ElementId::Osm(5)).is_some());
    assert!(ov.get_override(&ElementId::Osm(6)).is_none());
    assert!(ov.get_override(&ElementId::Wikidata("Q9".to_string())).is_some());
    assert!(ov.get_override(&ElementId::Wikidata("Q8".to_string())).is_none());
}

#[test]
fn override_replaces_image_and_fills_credits() {
    let o = OverrideEntry {
        local_image: Some("dragon.png".to_string()),
        image_source_url: Some("https://example.org/about".to_string()),
        image_source_text: Some("town archive".to_string()),
    };
    let mut e = entry("a");
    o.override_map_entry(&mut e);
    let img = e.image.as_ref().unwrap();
    assert_eq!(img.url, "/images/dragon.png");
    assert_eq!(img.credit_url.as_deref(), Some("https://example.org/about"));
    assert_eq!(img.credit_text.as_deref(), Some("town archive"));
}

#[test]
fn override_without_local_image_leaves_absent_image_absent() {
    let o = OverrideEntry {
        local_image: None,
        image_source_url: Some("https://example.org/about".to_string()),
        image_source_text: None,
    };
    let mut e = entry("a");
    o.override_map_entry(&mut e);
    assert!(e.image.is_none());
}

#[test]
fn applying_the_override_table_twice_changes_nothing_more() {
    let ov = Overrides {
        osm: vec![(
            7,
            OverrideEntry {
                local_image: Some("seven.jpg".to_string()),
                image_source_url: Some("https://example.org/seven".to_string()),
                image_source_text: None,
            },
        )],
        wikidata: vec![],
    };
    let e = entry("a");
    let once = ov.apply_overrides(&e);
    let twice = ov.apply_overrides(&once);
    assert!(same_entry(&once, &twice));
    assert_eq!(once.image.as_ref().unwrap().url, "/images/seven.jpg");
}

#[test]
fn post_process_names_the_credit_domain() {
    let mut e = entry("a");
    e.image = Some(MapEntryImageSource {
        url: "https://example.org/dragon.jpg".to_string(),
        credit_url: Some("https://museum.example.com/collection".to_string()),
        credit_text: None,
    });
    e.post_process();
    assert_eq!(
        e.image.as_ref().unwrap().credit_text.as_deref(),
        Some("From museum.example.com")
    );
}

#[test]
fn post_process_keeps_an_existing_credit_text() {
    let mut e = entry("a");
    e.image = Some(MapEntryImageSource {
        url: "https://example.org/dragon.jpg".to_string(),
        credit_url: Some("https://museum.example.com/collection".to_string()),
        credit_text: Some("already credited".to_string()),
    });
    e.post_process();
    assert_eq!(
        e.image.as_ref().unwrap().credit_text.as_deref(),
        Some("already credited")
    );
}

#[test]
fn positions_order_records_exactly() {
    let mut a = entry("p");
    a.pos = Some(GeoPos { lat_nanodeg: 48_850_000_000, lon_nanodeg: 2_350_000_000 });
    let mut b = entry("p");
    b.pos = Some(GeoPos { lat_nanodeg: 48_850_000_000, lon_nanodeg: 2_350_000_001 });
    let mut s = RecordSet::new();
    s.insert(a);
    s.insert(b);
    assert_eq!(s.len(), 2);
}

#[test]
fn dragon_category_is_named_dragon() {
    let c = DepictionCategory::dragon();
    assert_eq!(c.0, "dragon");
}
