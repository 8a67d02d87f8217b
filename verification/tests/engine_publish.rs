use depiction_map::DepictionCategory;
use depiction_map::ElementId;
use depiction_map::MapEntry;
use depiction_map::codec::encode_entry;
use depiction_map::display_data_set::DisplayDataSet;
use depiction_map::display_data_set::DisplayDataSetEntry;
use depiction_map::display_data_set::SnapshotCell;
use depiction_map::display_data_set::build_display_data_set;
use depiction_map::fetched_data_set::FetchedDataSet;
use depiction_map::fetched_data_set::rebuild_category;
use depiction_map::map_entry::GeoPos;
use depiction_map::overrides::OverrideEntry;
use depiction_map::overrides::Overrides;
use depiction_map::record_set::RecordSet;
use depiction_map::storage::decode_entries_full;

const HOUR: u64 = 3_600_000_000_000;

fn entry(name: &str, id: ElementId) -> MapEntry {
    MapEntry {
        pos: None,
        name: Some(name.to_string()),
        location_name: None,
        image: None,
        source_url: None,
        is_in_exhibit: false,
        nature: None,
        element_ids: vec![id],
    }
}

fn no_overrides() -> Overrides {
    Overrides { osm: vec![], wikidata: vec![] }
}

fn two_dragon_sources() -> FetchedDataSet {
    let mut set = FetchedDataSet::new(no_overrides());
    set.add_fetcher(
        vec![DepictionCategory::dragon()],
        "s1.json".to_string(),
        HOUR,
        "S1".to_string(),
    )
    .unwrap();
    set.add_fetcher(
        vec![DepictionCategory::dragon()],
        "s2.json".to_string(),
        3 * HOUR,
        "S2".to_string(),
    )
    .unwrap();
    set
}

#[test]
fn never_refreshed_sources_are_due() {
    let set = two_dragon_sources();
    assert!(set.entries[0].should_be_updated(50));
    assert!(set.entries[1].should_be_updated(50));
}

#[test]
fn refresh_is_due_again_exactly_at_the_interval_boundary() {
    let mut set = two_dragon_sources();
    assert!(set.entries[0].begin_update_if_needed(1000));
    assert!(!set.entries[0].should_be_updated(1000 + HOUR - 1));
    assert!(set.entries[0].should_be_updated(1000 + HOUR));
    assert!(set.entries[0].should_be_updated(1000 + HOUR + 1));
}

#[test]
fn clock_regression_forces_a_refresh() {
    let mut set = two_dragon_sources();
    assert!(set.entries[0].begin_update_if_needed(1000));
    assert!(set.entries[0].should_be_updated(999));
    assert!(!set.entries[0].should_be_updated(1000));
}

#[test]
fn marking_happens_before_the_fetch_so_failures_wait_a_full_interval() {
    let mut set = two_dragon_sources();
    assert!(set.entries[0].begin_update_if_needed(1000));
    // the fetch then fails: no other state changes, and the slot is not
    // due again until a full interval has passed
    assert!(!set.entries[0].begin_update_if_needed(1001));
    assert_eq!(set.entries[0].storage.data.private.last_updated, Some(1000));
}

#[test]
fn merged_category_is_the_slot_ordered_union() {
    let mut set = two_dragon_sources();
    assert!(set.entries[0].begin_update_if_needed(1000));
    assert!(set.entries[1].begin_update_if_needed(1000));
    let a = entry("a", ElementId::Osm(1));
    let b = entry("b", ElementId::Osm(2));
    let c = entry("c", ElementId::Wikidata("Q1".to_string()));
    let mut s1 = RecordSet::new();
    s1.insert(a);
    s1.insert(b);
    let mut s2 = RecordSet::new();
    s2.insert(c);
    set.entries[0].apply_fetched(s1);
    set.entries[1].apply_fetched(s2);

    let merged = set.build_data_for_depiction_category(&DepictionCategory::dragon());
    let names: Vec<String> = merged.iter().map(|e| e.name.clone().unwrap()).collect();
    assert_eq!(names, vec!["a".to_string(), "b".to_string(), "c".to_string()]);

    // a category no source feeds merges to nothing
    let other = set.build_data_for_depiction_category(&DepictionCategory("gh".to_string()));
    assert!(other.is_empty());
}

#[test]
fn merge_applies_overrides_without_touching_storage() {
    let mut set = FetchedDataSet::new(Overrides {
        osm: vec![(
            1,
            OverrideEntry {
                local_image: Some("local.png".to_string()),
                image_source_url: None,
                image_source_text: None,
            },
        )],
        wikidata: vec![],
    });
    set.add_fetcher(
        vec![DepictionCategory::dragon()],
        "s1.json".to_string(),
        HOUR,
        "S1".to_string(),
    )
    .unwrap();
    let a = entry("a", ElementId::Osm(1));
    let stored_encoding = encode_entry(&a);
    let mut s1 = RecordSet::new();
    s1.insert(a);
    set.entries[0].apply_fetched(s1);

    let merged = set.build_data_for_depiction_category(&DepictionCategory::dragon());
    assert_eq!(merged.len(), 1);
    assert_eq!(merged[0].image.as_ref().unwrap().url, "/images/local.png");

    // the stored record is unchanged
    let stored = set.entries[0].storage.data.public.entries.entries_vec();
    assert_eq!(encode_entry(&stored[0]), stored_encoding);
    assert!(stored[0].image.is_none());
}

#[test]
fn snapshot_wire_form_decodes_to_its_own_list() {
    let v = vec![
        entry("a", ElementId::Osm(1)),
        entry("b", ElementId::Osm(2)),
        entry("a", ElementId::Osm(1)),
    ];
    let snapshot = DisplayDataSetEntry::new(v);
    let decoded = decode_entries_full(snapshot.json().as_str()).unwrap();
    assert_eq!(decoded.len(), snapshot.entries().len());
    for k in 0..decoded.len() {
        assert_eq!(encode_entry(&decoded[k]), encode_entry(&snapshot.entries()[k]));
    }
}

#[test]
fn snapshot_cell_returns_the_stored_snapshot() {
    let cell = SnapshotCell::new(DisplayDataSetEntry::default());
    assert_eq!(cell.load().entries().len(), 0);
    cell.store(DisplayDataSetEntry::new(vec![entry("a", ElementId::Osm(1))]));
    let loaded = cell.load();
    assert_eq!(loaded.entries().len(), 1);
    assert_eq!(loaded.entries()[0].name.as_deref(), Some("a"));
}

#[test]
fn every_fed_category_starts_with_a_published_snapshot() {
    let set = two_dragon_sources();
    let display = build_display_data_set(&set);
    let cell = display.get(&DepictionCategory::dragon());
    assert!(cell.is_some());
    assert!(display.get(&DepictionCategory("unknown".to_string())).is_none());
}

#[test]
fn publish_after_refresh_shows_every_contributing_slot() {
    let mut set = two_dragon_sources();
    let display = build_display_data_set(&set);

    let mut s1 = RecordSet::new();
    s1.insert(entry("a", ElementId::Osm(1)));
    s1.insert(entry("b", ElementId::Osm(2)));
    set.entries[0].apply_fetched(s1);
    let dragon = DepictionCategory::dragon();
    display.get(&dragon).unwrap().store(rebuild_category(&set, &dragon));

    let mut s2 = RecordSet::new();
    s2.insert(entry("c", ElementId::Wikidata("Q1".to_string())));
    set.entries[1].apply_fetched(s2);
    display.get(&dragon).unwrap().store(rebuild_category(&set, &dragon));

    let loaded = display.get(&dragon).unwrap().load();
    let names: Vec<String> =
        loaded.entries().iter().map(|e| e.name.clone().unwrap()).collect();
    assert_eq!(names, vec!["a".to_string(), "b".to_string(), "c".to_string()]);

    // a category no source feeds has no cell to publish into
    assert!(display.get(&DepictionCategory("no".to_string())).is_none());
}

#[test]
fn the_empty_snapshot_wire_form_is_the_empty_array() {
    let empty = DisplayDataSetEntry::default();
    assert_eq!(empty.json(), "[]");
    assert_eq!(empty.entries().len(), 0);
}

#[test]
fn the_wire_form_is_json() {
    let mut e = entry("the \"old\" dragon", ElementId::Osm(1));
    e.pos = Some(GeoPos { lat_nanodeg: 48_850_000_000, lon_nanodeg: -2_350_000_000 });
    let snapshot = DisplayDataSetEntry::new(vec![e]);
    let text = snapshot.json().clone();
    assert!(text.starts_with("[{\"pos\":[48.850000000,-2.350000000],\"name\":\"the \\\"old\\\" dragon\","));
    assert!(text.ends_with("\"element_ids\":[{\"Osm\":1}]}]"));
}

#[test]
fn listed_categories_cover_all_slots_without_duplicates() {
    let mut set = FetchedDataSet::new(no_overrides());
    set.add_fetcher(
        vec![DepictionCategory::dragon(), DepictionCategory("griffin".to_string())],
        "s1.json".to_string(),
        HOUR,
        "S1".to_string(),
    )
    .unwrap();
    set.add_fetcher(
        vec![DepictionCategory::dragon()],
        "s2.json".to_string(),
        HOUR,
        "S2".to_string(),
    )
    .unwrap();
    let cats = set.list_all_depiction_category();
    let mut names: Vec<String> = cats.iter().map(|c| c.0.clone()).collect();
    names.sort();
    assert_eq!(names, vec!["dragon".to_string(), "griffin".to_string()]);
}

#[test]
fn display_data_set_new_keeps_the_given_categories() {
    let display = DisplayDataSet::new(vec![DepictionCategory::dragon()]);
    assert!(display.get(&DepictionCategory::dragon()).is_some());
    let loaded = display.get(&DepictionCategory::dragon()).unwrap().load();
    assert_eq!(loaded.entries().len(), 0);
}

#[test]
fn positions_survive_the_snapshot_round_trip() {
    let mut a = entry("a", ElementId::Osm(1));
    a.pos = Some(GeoPos { lat_nanodeg: -48_850_000_000, lon_nanodeg: 2_350_000_000 });
    let snapshot = DisplayDataSetEntry::new(vec![a]);
    let decoded = decode_entries_full(snapshot.json().as_str()).unwrap();
    let p = decoded[0].pos.unwrap();
    assert_eq!(p.lat_nanodeg, -48_850_000_000);
    assert_eq!(p.lon_nanodeg, 2_350_000_000);
}
