//! Core of a depiction-map service: records fetched from several external
//! sources are merged per display category, corrected by a user override
//! table, persisted durably, and published as immutable snapshots to
//! concurrent readers.
use vstd::prelude::*;

pub mod codec;
pub mod commit_log;
pub mod display_data_set;
pub mod fetched_data_set;
pub mod image_reference;
pub mod map_entry;
pub mod order;
pub mod osm;
pub mod overrides;
pub mod record_set;
pub mod storage;
pub mod url_util;
pub mod wikidata;

pub use display_data_set::DisplayDataSet;
pub use display_data_set::DisplayDataSetEntry;
pub use fetched_data_set::FetchedDataSet;
pub use image_reference::ImageReference;
pub use map_entry::GeoPos;
pub use map_entry::ImageSourceView;
pub use map_entry::MapEntry;
pub use map_entry::MapEntryImageSource;
pub use map_entry::MapEntryView;
pub use overrides::OverrideEntry;
pub use overrides::Overrides;
pub use record_set::RecordSet;
pub use storage::Storage;
pub use wikidata::FetchDataWikidataSparql;

verus! {

/// Identity of a source element: the external system that a record came
/// from, together with that system's own identifier for it.
#[derive(Debug)]
pub enum ElementId {
    Osm(u64),
    Wikidata(String),
}

/// Mathematical model of `ElementId`.
pub ghost enum ElementIdView {
    Osm(u64),
    Wikidata(Seq<char>),
}

impl View for ElementId {
    type V = ElementIdView;

    open spec fn view(&self) -> ElementIdView {
        match self {
            ElementId::Osm(id) => ElementIdView::Osm(*id),
            ElementId::Wikidata(id) => ElementIdView::Wikidata(id@),
        }
    }
}

impl DeepView for ElementId {
    type V = ElementIdView;

    open spec fn deep_view(&self) -> ElementIdView {
        self.view()
    }
}

impl Clone for ElementId {
    fn clone(&self) -> (r: Self)
        ensures
            r@ == self@,
    {
        match self {
            ElementId::Osm(id) => ElementId::Osm(*id),
            ElementId::Wikidata(id) => ElementId::Wikidata(id.clone()),
        }
    }
}

pub fn clone_element_ids(v: &Vec<ElementId>) -> (r: Vec<ElementId>)
    ensures
        r.deep_view() == v.deep_view(),
{
    let mut r: Vec<ElementId> = Vec::new();
    let mut i: usize = 0;
    while i < v.len()
        invariant
            i <= v.len(),
            r@.len() == i as int,
            r.deep_view() =~= v.deep_view().take(i as int),
        decreases v.len() - i,
    {
        let ghost prev_dv = r.deep_view();
        let ghost prev_seq = r@;
        let c = v[i].clone();
        let ghost cv = c@;
        r.push(c);
        i = i + 1;
        proof {
            assert(r@ == prev_seq.push(r@[i - 1]));
            assert forall|k: int| 0 <= k < i implies r.deep_view()[k] == v.deep_view()[k] by {
                if k < i - 1 {
                    assert(r@[k] == prev_seq[k]);
                    assert(prev_dv[k] == v.deep_view().take(i - 1)[k]);
                } else {
                    assert(r@[k].deep_view() == cv);
                }
            }
            assert(r.deep_view() =~= v.deep_view().take(i as int));
        }
    }
    proof {
        assert(r.deep_view() =~= v.deep_view());
    }
    r
}

/// What kind of thing the grouped records depict. Groups several sources
/// into one published view.
#[derive(Debug)]
pub struct DepictionCategory(pub String);

impl DepictionCategory {
    pub fn dragon() -> (r: Self)
        ensures
            r@ == "dragon"@,
    {
        DepictionCategory(String::from_str("dragon"))
    }
}

impl View for DepictionCategory {
    type V = Seq<char>;

    open spec fn view(&self) -> Seq<char> {
        self.0@
    }
}

impl Clone for DepictionCategory {
    fn clone(&self) -> (r: Self)
        ensures
            r@ == self@,
    {
        DepictionCategory(self.0.clone())
    }
}

} // verus!
