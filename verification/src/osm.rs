//! The OpenStreetMap source: the pure work of turning one fetched node
//! into a record. Querying the map service is the calling process's part.
use vstd::prelude::*;
use crate::ElementId;
use crate::ElementIdView;
use crate::codec::dec_spec;
use crate::codec::encode_u64_digits;
use crate::map_entry::GeoPos;
use crate::map_entry::MapEntry;
use crate::map_entry::MapEntryView;
use crate::map_entry::opt_string_view;

verus! {

pub open spec fn tags_view(tags: Seq<(String, String)>) -> Seq<(Seq<char>, Seq<char>)> {
    Seq::new(tags.len(), |i: int| (tags[i].0@, tags[i].1@))
}

/// The value of the first artwork-type tag, if the node carries one.
pub open spec fn guess_nature_spec(tags: Seq<(Seq<char>, Seq<char>)>, i: int) -> Option<
    Seq<char>,
>
    decreases tags.len() - i,
{
    if i < 0 || i >= tags.len() {
        None
    } else if tags[i].0 == "artwork_type"@ {
        Some(tags[i].1)
    } else {
        guess_nature_spec(tags, i + 1)
    }
}

fn guess_nature_at(tags: &Vec<(String, String)>, i: usize) -> (r: Option<String>)
    requires
        i <= tags@.len(),
    ensures
        opt_string_view(&r) == guess_nature_spec(tags_view(tags@), i as int),
    decreases tags@.len() - i,
{
    if i == tags.len() {
        return None;
    }
    let c = crate::order::str_cmp(tags[i].0.as_str(), "artwork_type");
    proof {
        crate::order::lemma_chars_cmp_eq(tags@[i as int].0@, "artwork_type"@);
    }
    if c == 0 {
        Some(tags[i].1.clone())
    } else {
        guess_nature_at(tags, i + 1)
    }
}

/// What kind of thing a node depicts, read from its tags: the value of
/// its artwork-type tag, if it has one.
pub fn guess_nature_from_tags(tags: &Vec<(String, String)>) -> (r: Option<String>)
    ensures
        opt_string_view(&r) == guess_nature_spec(tags_view(tags@), 0),
{
    guess_nature_at(tags, 0)
}

/// The record one fetched node stands for: its position, its name tag,
/// the node's own page as source address, and the artwork-type tag as
/// nature. A node is never taken for an exhibit piece.
pub open spec fn osm_node_entry_spec(
    osm_id: u64,
    pos: GeoPos,
    name: Option<Seq<char>>,
    tags: Seq<(Seq<char>, Seq<char>)>,
) -> MapEntryView {
    MapEntryView {
        pos: Some(pos),
        name: name,
        location_name: None,
        image: None,
        source_url: Some("https://www.openstreetmap.org/node/"@ + dec_spec(osm_id as int)),
        is_in_exhibit: false,
        nature: guess_nature_spec(tags, 0),
        element_ids: seq![ElementIdView::Osm(osm_id)],
    }
}

/// Turn one fetched node into a record.
pub fn osm_node_to_map_entry(
    osm_id: u64,
    pos: GeoPos,
    name: Option<String>,
    tags: &Vec<(String, String)>,
) -> (r: MapEntry)
    ensures
        r@ == osm_node_entry_spec(osm_id, pos, opt_string_view(&name), tags_view(tags@)),
{
    let mut source_url = String::from_str("https://www.openstreetmap.org/node/");
    let digits = encode_u64_digits(osm_id);
    source_url.append(digits.as_str());
    let nature = guess_nature_from_tags(tags);
    let mut element_ids: Vec<ElementId> = Vec::new();
    element_ids.push(ElementId::Osm(osm_id));
    let r = MapEntry {
        pos: Some(pos),
        name,
        location_name: None,
        image: None,
        source_url: Some(source_url),
        is_in_exhibit: false,
        nature,
        element_ids,
    };
    proof {
        assert(r@.element_ids =~= seq![ElementIdView::Osm(osm_id)]);
        assert(r@ == osm_node_entry_spec(osm_id, pos, opt_string_view(&r.name), tags_view(
            tags@,
        )));
    }
    r
}

} // verus!
