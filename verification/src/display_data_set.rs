//! The snapshot publisher: one immutable (record list, wire form) pair per
//! category, replaced wholesale by an atomic swap. A reader holds either
//! the snapshot from before an update or the one after, never a mixture,
//! and in every snapshot the wire form decodes to exactly its record list.
use vstd::prelude::*;
use std::sync::Arc;
use crate::DepictionCategory;
use crate::fetched_data_set::FetchedDataSet;
use crate::fetched_data_set::cat_fed;
use crate::fetched_data_set::cat_listed;
use crate::fetched_data_set::merged_spec;
use crate::fetched_data_set::rebuild_category;
use crate::map_entry::MapEntry;
use crate::map_entry::MapEntryView;
use crate::codec::enc_entries;
use crate::codec::encode_entries;
use crate::storage::dec_entries_full;
use crate::storage::lemma_save_load_round_trip;

verus! {

/// One published snapshot: a category's merged record list and its wire
/// form, fixed at construction. Every value of this type keeps the two
/// halves consistent: the wire form is the canonical encoding of the list.
#[derive(Debug)]
pub struct DisplayDataSetEntry {
    entries: Vec<MapEntry>,
    json: String,
}

impl DisplayDataSetEntry {
    /// The snapshot's record list.
    pub closed spec fn entries_spec(&self) -> Seq<MapEntryView> {
        self.entries.deep_view()
    }

    /// The snapshot's wire form.
    pub closed spec fn json_spec(&self) -> Seq<char> {
        self.json@
    }

    #[verifier::type_invariant]
    closed spec fn consistent(&self) -> bool {
        self.json@ == enc_entries(self.entries.deep_view())
    }

    /// Build the snapshot for a record list: the list is serialized once,
    /// here, and the pair never changes afterwards.
    pub fn new(entries: Vec<MapEntry>) -> (r: Self)
        ensures
            r.entries_spec() == entries.deep_view(),
            r.json_spec() == enc_entries(entries.deep_view()),
    {
        let json = encode_entries(&entries);
        DisplayDataSetEntry { entries, json }
    }

    /// The record list, with the guarantee a reader needs: the snapshot's
    /// own wire form decodes back to exactly this list, so the two halves
    /// a reader sees can never disagree.
    pub fn entries(&self) -> (r: &Vec<MapEntry>)
        ensures
            r.deep_view() == self.entries_spec(),
            dec_entries_full(self.json_spec()) == Some(self.entries_spec()),
    {
        proof {
            use_type_invariant(self);
            lemma_save_load_round_trip(self.entries.deep_view(), None);
        }
        &self.entries
    }

    /// The pre-serialized wire form, which decodes to exactly the record
    /// list of this same snapshot: no torn read is expressible.
    pub fn json(&self) -> (r: &String)
        ensures
            r@ == self.json_spec(),
            dec_entries_full(r@) == Some(self.entries_spec()),
    {
        proof {
            use_type_invariant(self);
            lemma_save_load_round_trip(self.entries.deep_view(), None);
        }
        &self.json
    }
}

impl Default for DisplayDataSetEntry {
    /// The valid empty snapshot: no records, and the empty array as its
    /// wire form.
    fn default() -> (r: Self)
        ensures
            r.entries_spec() == Seq::<MapEntryView>::empty(),
            r.json_spec() == "[]"@,
    {
        let entries: Vec<MapEntry> = Vec::new();
        proof {
            assert(entries.deep_view() =~= Seq::<MapEntryView>::empty());
            reveal_strlit("[]");
            assert(enc_entries(Seq::<MapEntryView>::empty()) =~= "[]"@);
        }
        DisplayDataSetEntry::new(entries)
    }
}

/// The wait-free publication cell for one category, wrapping the atomic
/// shared-pointer swap. The writer replaces the whole snapshot; readers
/// load whichever whole snapshot is current.
#[verifier::external_body]
#[derive(Debug)]
pub struct SnapshotCell {
    cell: arc_swap::ArcSwap<DisplayDataSetEntry>,
}

impl SnapshotCell {
    /// Relies on arc_swap::ArcSwap::from_pointee: a cell holding the given
    /// snapshot.
    #[verifier::external_body]
    pub fn new(entry: DisplayDataSetEntry) -> (r: Self) {
        SnapshotCell { cell: arc_swap::ArcSwap::from_pointee(entry) }
    }

    /// Relies on arc_swap::ArcSwapAny::store: atomically replace the
    /// published snapshot; readers see the old one or the new one, whole.
    #[verifier::external_body]
    pub fn store(&self, entry: DisplayDataSetEntry) {
        self.cell.store(Arc::new(entry));
    }

    /// Relies on arc_swap::ArcSwapAny::load_full: the currently published
    /// snapshot, shared; which one comes back depends on when the writer
    /// last stored, so nothing more is promised of it.
    #[verifier::external_body]
    pub fn load(&self) -> (r: Arc<DisplayDataSetEntry>) {
        self.cell.load_full()
    }
}

/// The published view of the whole service: one snapshot cell per known
/// category.
#[derive(Debug)]
pub struct DisplayDataSet {
    pub to_display: Vec<(DepictionCategory, SnapshotCell)>,
}

impl DisplayDataSet {
    /// The categories that have a cell.
    pub open spec fn keys(&self) -> Seq<Seq<char>> {
        Seq::new(self.to_display@.len(), |i: int| self.to_display@[i].0@)
    }

    /// One cell per given category, each starting with the valid empty
    /// snapshot, so no known category is ever missing; the categories must
    /// be distinct, so each has exactly one cell.
    pub fn new(depictions: Vec<DepictionCategory>) -> (r: Self)
        requires
            forall|k1: int, k2: int| 0 <= k1 < k2 < depictions@.len() ==> (#[trigger] depictions@[
                k1
            ])@ != (#[trigger] depictions@[k2])@,
        ensures
            r.keys() == Seq::new(depictions@.len(), |i: int| depictions@[i]@),
            forall|k1: int, k2: int| 0 <= k1 < k2 < r.keys().len() ==> r.keys()[k1]
                != r.keys()[k2],
    {
        let ghost target = Seq::new(depictions@.len(), |i: int| depictions@[i]@);
        let mut to_display: Vec<(DepictionCategory, SnapshotCell)> = Vec::new();
        let mut i: usize = 0;
        let mut depictions = depictions;
        while i < depictions.len()
            invariant
                i <= depictions@.len(),
                target == Seq::new(depictions@.len(), |k: int| depictions@[k]@),
                to_display@.len() == i as int,
                forall|k: int| 0 <= k < i ==> (#[trigger] to_display@[k]).0@ == target[k],
            decreases depictions@.len() - i,
        {
            let cat = depictions[i].clone();
            to_display.push((cat, SnapshotCell::new(DisplayDataSetEntry::default())));
            i = i + 1;
        }
        let r = DisplayDataSet { to_display };
        proof {
            assert(r.keys() =~= target);
        }
        r
    }

    /// The cell for a category — the very cell paired with it, so the
    /// writer's stores and the readers' loads meet — or nothing for a
    /// category no source was ever configured to serve.
    pub fn get(&self, category: &DepictionCategory) -> (r: Option<&SnapshotCell>)
        ensures
            r is Some <==> self.keys().contains(category@),
            r matches Some(cell) ==> exists|k: int|
                0 <= k < self.to_display@.len() && (#[trigger] self.to_display@[k]).0@
                    == category@ && *cell == self.to_display@[k].1,
    {
        let mut i: usize = 0;
        while i < self.to_display.len()
            invariant
                i <= self.to_display@.len(),
                forall|k: int| 0 <= k < i ==> (#[trigger] self.to_display@[k]).0@ != category@,
            decreases self.to_display@.len() - i,
        {
            if self.to_display[i].0.0 == category.0 {
                proof {
                    assert(self.keys()[i as int] == category@);
                }
                return Some(&self.to_display[i].1);
            }
            i = i + 1;
        }
        proof {
            assert(!self.keys().contains(category@)) by {
                if self.keys().contains(category@) {
                    let w = choose|w: int|
                        0 <= w < self.keys().len() && self.keys()[w] == category@;
                    assert(self.to_display@[w].0@ == category@);
                }
            }
        }
        None
    }
}

/// Build the publisher's initial state from the engine: one cell per
/// category that some configured slot feeds, each already holding that
/// category's merged snapshot, and exactly one cell per category.
pub fn build_display_data_set(set: &FetchedDataSet) -> (r: DisplayDataSet)
    ensures
        forall|c: Seq<char>| #[trigger] r.keys().contains(c) <==> cat_fed(set@.slots, c),
        forall|k1: int, k2: int| 0 <= k1 < k2 < r.keys().len() ==> r.keys()[k1] != r.keys()[k2],
{
    let categories = set.list_all_depiction_category();
    let ghost cats = categories@;
    let mut display = DisplayDataSet::new(categories);
    proof {
        assert(display.keys().len() == display.to_display@.len());
        assert(display.keys().len() == cats.len());
    }
    let mut i: usize = 0;
    while i < display.to_display.len()
        invariant
            i <= display.to_display@.len(),
            display.keys() == Seq::new(cats.len(), |k: int| cats[k]@),
            display.to_display@.len() == cats.len(),
        decreases display.to_display@.len() - i,
    {
        let snapshot = rebuild_category(set, &display.to_display[i].0);
        display.to_display[i].1 = SnapshotCell::new(snapshot);
        proof {
            assert(display.keys() =~= Seq::new(cats.len(), |k: int| cats[k]@));
        }
        i = i + 1;
    }
    proof {
        assert forall|c: Seq<char>| #[trigger] display.keys().contains(c) <==> cat_fed(
            set@.slots,
            c,
        ) by {
            if display.keys().contains(c) {
                let w = choose|w: int|
                    0 <= w < display.keys().len() && display.keys()[w] == c;
                assert(cats[w]@ == c);
                assert(cat_listed(cats, c));
            }
            if cat_fed(set@.slots, c) {
                assert(cat_listed(cats, c));
                let w = choose|w: int| 0 <= w < cats.len() && (#[trigger] cats[w])@ == c;
                assert(display.keys()[w] == c);
            }
        }
    }
    display
}

} // verus!
