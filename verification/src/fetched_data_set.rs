//! The refresh engine's state: all configured source slots, each with its
//! durable storage, the categories it feeds, and its retry schedule; and
//! the merge that builds one category's published list from every
//! contributing slot. The engine decides here; the calling process only
//! performs the fetches, file writes and commits it is told to.
use vstd::prelude::*;
use crate::DepictionCategory;
use crate::map_entry::MapEntry;
use crate::map_entry::MapEntryView;
use crate::overrides::Overrides;
use crate::overrides::OverridesView;
use crate::overrides::apply_overrides_spec;
use crate::record_set::RecordSet;
use crate::storage::Storage;
use crate::storage::StorageError;

verus! {

/// One configured source slot.
#[derive(Debug)]
pub struct FetchedDataEntry {
    pub storage: Storage,
    pub depict: Vec<DepictionCategory>,
    pub retry_every_nanos: u64,
    pub title: String,
}

/// Mathematical model of a slot: what the merge and the schedule read.
pub ghost struct SlotView {
    pub entries: Seq<MapEntryView>,
    pub last_updated: Option<u64>,
    pub retry_every_nanos: u64,
    pub depict: Seq<Seq<char>>,
    pub title: Seq<char>,
}

impl View for FetchedDataEntry {
    type V = SlotView;

    open spec fn view(&self) -> SlotView {
        SlotView {
            entries: self.storage.data.public.entries@,
            last_updated: self.storage.data.private.last_updated,
            retry_every_nanos: self.retry_every_nanos,
            depict: Seq::new(self.depict@.len(), |i: int| self.depict@[i]@),
            title: self.title@,
        }
    }
}

/// When a slot is due: it never refreshed, the clock ran backward past its
/// last refresh, or a full retry interval has passed (the boundary instant
/// included).
pub open spec fn should_refresh(v: SlotView, current_time: u64) -> bool {
    match v.last_updated {
        None => true,
        Some(t) => current_time < t || current_time as int >= t as int
            + v.retry_every_nanos as int,
    }
}

impl FetchedDataEntry {
    /// Whether this slot is due for a refresh at `current_time` (TAI
    /// nanoseconds).
    pub fn should_be_updated(&self, current_time: u64) -> (r: bool)
        ensures
            r == should_refresh(self@, current_time),
    {
        match self.storage.data.private.last_updated {
            None => true,
            Some(t) => {
                if current_time < t {
                    true
                } else {
                    current_time - t >= self.retry_every_nanos
                }
            },
        }
    }

    /// If the slot is due, mark it refreshed at `current_time` before any
    /// fetch happens, so a failing source still waits a full interval
    /// before the next attempt; nothing else changes. Returns whether the
    /// slot was due.
    pub fn begin_update_if_needed(&mut self, current_time: u64) -> (r: bool)
        ensures
            r == should_refresh(old(self)@, current_time),
            !r ==> *final(self) == *old(self),
            r ==> final(self)@.last_updated == Some(current_time),
            r ==> final(self)@.entries == old(self)@.entries,
            r ==> final(self)@.depict == old(self)@.depict,
            r ==> final(self)@.retry_every_nanos == old(self)@.retry_every_nanos,
            r ==> final(self)@.title == old(self)@.title,
            r ==> final(self).storage.file_name_spec() == old(self).storage.file_name_spec(),
            final(self).storage.data.public.entries@ == old(self).storage.data.public.entries@,
    {
        if self.should_be_updated(current_time) {
            self.storage.data.private.last_updated = Some(current_time);
            true
        } else {
            false
        }
    }

    /// A successful fetch: the slot's public content becomes exactly the
    /// fetched record set; the refresh time and everything else stay.
    pub fn apply_fetched(&mut self, fetched: RecordSet)
        requires
            fetched.inv(),
        ensures
            final(self)@.entries == fetched@,
            final(self)@.last_updated == old(self)@.last_updated,
            final(self)@.depict == old(self)@.depict,
            final(self)@.retry_every_nanos == old(self)@.retry_every_nanos,
            final(self)@.title == old(self)@.title,
            final(self).storage.file_name_spec() == old(self).storage.file_name_spec(),
            final(self).storage.data.public.entries.inv(),
    {
        self.storage.data.public.entries = fetched;
    }
}

/// All configured slots, in configuration order, with the override table
/// they share.
#[derive(Debug)]
pub struct FetchedDataSet {
    pub entries: Vec<FetchedDataEntry>,
    pub overrides: Overrides,
}

/// Mathematical model of the whole engine state.
pub ghost struct FetchedDataSetView {
    pub slots: Seq<SlotView>,
    pub overrides: OverridesView,
}

impl View for FetchedDataSet {
    type V = FetchedDataSetView;

    open spec fn view(&self) -> FetchedDataSetView {
        FetchedDataSetView {
            slots: Seq::new(self.entries@.len(), |i: int| self.entries@[i]@),
            overrides: self.overrides@,
        }
    }
}

/// One slot's contribution to a category: its stored records in order,
/// each with the override table applied, or nothing if the slot does not
/// feed the category.
pub open spec fn slot_contribution(ov: OverridesView, s: SlotView, cat: Seq<char>) -> Seq<
    MapEntryView,
> {
    if s.depict.contains(cat) {
        Seq::new(s.entries.len(), |k: int| apply_overrides_spec(ov, s.entries[k]))
    } else {
        Seq::<MapEntryView>::empty()
    }
}

/// The merged list for a category over the slots from `i` on: a full
/// rebuild from every contributing slot's current records, in
/// configuration order.
pub open spec fn merged_from(
    ov: OverridesView,
    slots: Seq<SlotView>,
    cat: Seq<char>,
    i: int,
) -> Seq<MapEntryView>
    decreases slots.len() - i,
{
    if i < 0 || i >= slots.len() {
        Seq::<MapEntryView>::empty()
    } else {
        slot_contribution(ov, slots[i], cat) + merged_from(ov, slots, cat, i + 1)
    }
}

/// What the published list for a category must hold: the override-applied
/// records of every slot that feeds it, in configuration order.
pub open spec fn merged_spec(v: FetchedDataSetView, cat: Seq<char>) -> Seq<MapEntryView> {
    merged_from(v.overrides, v.slots, cat, 0)
}

impl FetchedDataSet {
    /// An engine with no slots yet, sharing the given override table.
    pub fn new(overrides: Overrides) -> (r: Self)
        ensures
            r@.slots == Seq::<SlotView>::empty(),
            r@.overrides == overrides@,
    {
        let r = FetchedDataSet { entries: Vec::new(), overrides };
        proof {
            assert(r@.slots =~= Seq::<SlotView>::empty());
        }
        r
    }

    /// Configure one more source slot, with an empty stored state until it
    /// is loaded. The slot keeps the given categories as a set: each once,
    /// duplicates collapsed. Refused exactly when the storage file name is
    /// unsafe.
    pub fn add_fetcher(
        &mut self,
        depict: Vec<DepictionCategory>,
        storage_file_name: String,
        retry_every_nanos: u64,
        title: String,
    ) -> (r: Result<(), StorageError>)
        ensures
            r is Ok <==> crate::storage::is_safe_file_name(storage_file_name@),
            r is Err ==> *final(self) == *old(self),
            r is Ok ==> final(self)@.slots.len() == old(self)@.slots.len() + 1 && final(self)@.slots.take(old(self)@.slots.len() as int) == old(self)@.slots && final(self)@.slots.last().entries == Seq::<MapEntryView>::empty() && final(self)@.slots.last().last_updated is None && final(self)@.slots.last().retry_every_nanos
                == retry_every_nanos && final(self)@.slots.last().title == title@ && (forall|
                c: Seq<char>,
            |
                final(self)@.slots.last().depict.contains(c) <==> cat_listed(depict@, c)) && (
            forall|k1: int, k2: int|
                0 <= k1 < k2 < final(self)@.slots.last().depict.len() ==> final(self)@.slots.last().depict[k1] != final(self)@.slots.last().depict[k2]) && final(self)@.overrides == old(self)@.overrides,
    {
        let ghost prev = self@.slots;
        let storage = match Storage::new(storage_file_name) {
            Ok(s) => s,
            Err(e) => {
                return Err(e);
            },
        };
        let ghost given = depict@;
        let depict = dedup_categories(&depict);
        let ghost dd = depict@;
        let entry = FetchedDataEntry { storage, depict, retry_every_nanos, title };
        self.entries.push(entry);
        proof {
            assert forall|k: int| 0 <= k < prev.len() implies self@.slots.take(prev.len() as int)[
                k
            ] == prev[k] by {}
            assert(self@.slots.take(prev.len() as int) =~= prev);
            let sv = self@.slots.last().depict;
            assert(sv == Seq::new(dd.len(), |i: int| dd[i]@));
            assert forall|c: Seq<char>| sv.contains(c) <==> cat_listed(given, c) by {
                if sv.contains(c) {
                    let w = choose|w: int| 0 <= w < sv.len() && sv[w] == c;
                    assert(dd[w]@ == c);
                    assert(cat_listed(dd, c));
                }
                if cat_listed(given, c) {
                    assert(cat_listed(dd, c));
                    let w = choose|w: int| 0 <= w < dd.len() && (#[trigger] dd[w])@ == c;
                    assert(sv[w] == c);
                }
            }
        }
        Ok(())
    }

    /// The merged record list for one category: every contributing slot's
    /// current stored records in configuration order, each record a copy
    /// with the override table applied. Stored records are not touched.
    pub fn build_data_for_depiction_category(&self, depict_category: &DepictionCategory) -> (r:
        Vec<MapEntry>)
        ensures
            r.deep_view() == merged_spec(self@, depict_category@),
    {
        let ghost total = merged_spec(self@, depict_category@);
        let mut result: Vec<MapEntry> = Vec::new();
        let mut i: usize = 0;
        while i < self.entries.len()
            invariant
                i <= self.entries@.len(),
                self@.slots.len() == self.entries@.len(),
                result.deep_view() + merged_from(
                    self@.overrides,
                    self@.slots,
                    depict_category@,
                    i as int,
                ) =~= merged_spec(self@, depict_category@),
            decreases self.entries@.len() - i,
        {
            let ghost before = result.deep_view();
            let ghost slot = self@.slots[i as int];
            let source_entry = &self.entries[i];
            proof {
                assert(self.entries@[i as int]@ == slot);
            }
            let mut should_be_used = false;
            let mut d: usize = 0;
            while d < source_entry.depict.len()
                invariant
                    d <= source_entry.depict@.len(),
                    source_entry@ == slot,
                    should_be_used ==> slot.depict.contains(depict_category@),
                    !should_be_used ==> forall|k: int| 0 <= k < d ==> slot.depict[k]
                        != depict_category@,
                decreases source_entry.depict@.len() - d,
            {
                if !should_be_used {
                    if source_entry.depict[d].0 == depict_category.0 {
                        should_be_used = true;
                        proof {
                            assert(slot.depict[d as int] == depict_category@);
                        }
                    }
                }
                d = d + 1;
            }
            if should_be_used {
                let ghost part = slot_contribution(
                    self@.overrides,
                    slot,
                    depict_category@,
                );
                let n = source_entry.storage.data.public.entries.len();
                let mut k: usize = 0;
                while k < n
                    invariant
                        k <= n,
                        n == slot.entries.len(),
                        source_entry@ == slot,
                        slot.depict.contains(depict_category@),
                        part == slot_contribution(self@.overrides, slot, depict_category@),
                        self@.overrides == self.overrides@,
                        result.deep_view() =~= before + part.take(k as int),
                    decreases n - k,
                {
                    let e = source_entry.storage.data.public.entries.get(k);
                    let corrected = self.overrides.apply_overrides(e);
                    let ghost cv = corrected@;
                    let ghost prev_dv = result.deep_view();
                    let ghost prev_seq = result@;
                    result.push(corrected);
                    k = k + 1;
                    proof {
                        assert(result@ == prev_seq.push(result@[result@.len() - 1]));
                        assert(cv == part[k - 1]);
                        assert(prev_dv.len() == prev_seq.len());
                        assert(prev_dv == before + part.take(k - 1));
                        assert(prev_seq.len() == before.len() + (k - 1));
                        assert(result@.len() == prev_seq.len() + 1);
                        assert forall|j: int| 0 <= j < result@.len() implies result.deep_view()[
                            j
                        ] == (before + part.take(k as int))[j] by {
                            assert(part.take(k as int).len() == k);
                            if j < prev_seq.len() {
                                assert(result@[j] == prev_seq[j]);
                                assert(result.deep_view()[j] == result@[j].deep_view());
                                assert(prev_dv[j] == result@[j].deep_view());
                                assert(prev_dv[j] == (before + part.take(k - 1))[j]);
                                if j < before.len() {
                                    assert((before + part.take(k - 1))[j] == before[j]);
                                    assert((before + part.take(k as int))[j] == before[j]);
                                } else {
                                    assert((before + part.take(k - 1))[j] == part.take(k - 1)[
                                        j - before.len()
                                    ]);
                                    assert(part.take(k - 1)[j - before.len()] == part[j
                                        - before.len()]);
                                    assert((before + part.take(k as int))[j] == part.take(
                                        k as int,
                                    )[j - before.len()]);
                                    assert(part.take(k as int)[j - before.len()] == part[j
                                        - before.len()]);
                                }
                            } else {
                                assert(result@[j].deep_view() == cv);
                                assert((before + part.take(k as int))[j] == part.take(k as int)[
                                    j - before.len()
                                ]);
                                assert(j - before.len() == k - 1);
                                assert(part.take(k as int)[k - 1] == part[k - 1]);
                            }
                        }
                        assert(result.deep_view() =~= before + part.take(k as int));
                    }
                }
                proof {
                    assert(part.take(n as int) =~= part);
                }
            } else {
                proof {
                    assert(!slot.depict.contains(depict_category@)) by {
                        if slot.depict.contains(depict_category@) {
                            let w = choose|w: int|
                                0 <= w < slot.depict.len() && slot.depict[w]
                                    == depict_category@;
                        }
                    }
                    assert(slot_contribution(self@.overrides, slot, depict_category@)
                        =~= Seq::<MapEntryView>::empty());
                }
            }
            i = i + 1;
            proof {
                assert(merged_from(self@.overrides, self@.slots, depict_category@, i - 1)
                    == slot_contribution(self@.overrides, slot, depict_category@) + merged_from(
                    self@.overrides,
                    self@.slots,
                    depict_category@,
                    i as int,
                ));
            }
        }
        proof {
            assert(merged_from(self@.overrides, self@.slots, depict_category@, i as int)
                =~= Seq::<MapEntryView>::empty());
            assert(result.deep_view() =~= merged_spec(self@, depict_category@));
        }
        result
    }

    /// Every category that some configured slot feeds, each once.
    pub fn list_all_depiction_category(&self) -> (r: Vec<DepictionCategory>)
        ensures
            forall|c: Seq<char>| #[trigger] cat_listed(r@, c) <==> cat_fed(self@.slots, c),
            forall|k1: int, k2: int| 0 <= k1 < k2 < r@.len() ==> (#[trigger] r@[k1])@
                != (#[trigger] r@[k2])@,
    {
        let mut r: Vec<DepictionCategory> = Vec::new();
        let mut i: usize = 0;
        proof {
            assert forall|c: Seq<char>| #[trigger] cat_listed(r@, c) <==> cat_fed_upto(
                self@.slots,
                0,
                0,
                c,
            ) by {
                if cat_listed(r@, c) {
                    let k = choose|k: int| 0 <= k < r@.len() && (#[trigger] r@[k])@ == c;
                }
                if cat_fed_upto(self@.slots, 0, 0, c) {
                    let (a, jj): (int, int) = choose|a: int, jj: int|
                        fed_witness(self@.slots, 0, 0, c, a, jj);
                }
            }
        }
        while i < self.entries.len()
            invariant
                i <= self.entries@.len(),
                self@.slots.len() == self.entries@.len(),
                forall|c: Seq<char>| #[trigger] cat_listed(r@, c) <==> cat_fed_upto(
                    self@.slots,
                    i as int,
                    0,
                    c,
                ),
                forall|k1: int, k2: int| 0 <= k1 < k2 < r@.len() ==> (#[trigger] r@[k1])@
                    != (#[trigger] r@[k2])@,
            decreases self.entries@.len() - i,
        {
            let ghost slot = self@.slots[i as int];
            let source_entry = &self.entries[i];
            proof {
                assert(self.entries@[i as int]@ == slot);
            }
            let mut j: usize = 0;
            while j < source_entry.depict.len()
                invariant
                    j <= source_entry.depict@.len(),
                    source_entry@ == slot,
                    i < self@.slots.len(),
                    self@.slots[i as int] == slot,
                    forall|c: Seq<char>| #[trigger] cat_listed(r@, c) <==> cat_fed_upto(
                        self@.slots,
                        i as int,
                        j as int,
                        c,
                    ),
                    forall|k1: int, k2: int| 0 <= k1 < k2 < r@.len() ==> (#[trigger] r@[k1])@
                        != (#[trigger] r@[k2])@,
                decreases source_entry.depict@.len() - j,
            {
                let cat = &source_entry.depict[j];
                proof {
                    assert(slot.depict[j as int] == cat@);
                }
                let mut present = false;
                let mut k: usize = 0;
                while k < r.len()
                    invariant
                        k <= r@.len(),
                        present ==> cat_listed(r@, cat@),
                        !present ==> forall|w: int| 0 <= w < k ==> (#[trigger] r@[w])@ != cat@,
                    decreases r@.len() - k,
                {
                    if !present {
                        if r[k].0 == cat.0 {
                            present = true;
                            proof {
                                assert(r@[k as int]@ == cat@);
                                assert(cat_listed(r@, cat@));
                            }
                        }
                    }
                    k = k + 1;
                }
                let ghost prev = r@;
                if !present {
                    r.push(cat.clone());
                    proof {
                        assert(r@ == prev.push(r@[r@.len() - 1]));
                        assert(r@[r@.len() - 1]@ == cat@);
                        assert forall|k1: int, k2: int| 0 <= k1 < k2 < r@.len() implies (
                        #[trigger] r@[k1])@ != (#[trigger] r@[k2])@ by {
                            if k2 < r@.len() - 1 {
                                assert(r@[k1] == prev[k1] && r@[k2] == prev[k2]);
                            } else {
                                assert(r@[k1] == prev[k1]);
                                assert(r@[k2]@ == cat@);
                            }
                        }
                    }
                }
                j = j + 1;
                proof {
                    lemma_fed_step(self@.slots, i as int, j - 1, cat@);
                    assert forall|c: Seq<char>| #[trigger] cat_listed(r@, c) <==> cat_fed_upto(
                        self@.slots,
                        i as int,
                        j as int,
                        c,
                    ) by {
                        if present {
                            assert(r@ == prev);
                            if cat_listed(r@, c) {
                                assert(cat_fed_upto(self@.slots, i as int, j - 1, c));
                            }
                            if cat_fed_upto(self@.slots, i as int, j as int, c) {
                                if c == cat@ {
                                    assert(cat_listed(r@, c));
                                } else {
                                    assert(cat_fed_upto(self@.slots, i as int, j - 1, c));
                                }
                            }
                        } else {
                            if cat_listed(r@, c) {
                                let k = choose|k: int|
                                    0 <= k < r@.len() && (#[trigger] r@[k])@ == c;
                                if k < prev.len() {
                                    assert(prev[k]@ == c);
                                    assert(cat_listed(prev, c));
                                    assert(cat_fed_upto(self@.slots, i as int, j - 1, c));
                                } else {
                                    assert(c == cat@);
                                }
                            }
                            if cat_fed_upto(self@.slots, i as int, j as int, c) {
                                if c == cat@ {
                                    assert(r@[r@.len() - 1]@ == c);
                                    assert(cat_listed(r@, c));
                                } else {
                                    assert(cat_fed_upto(self@.slots, i as int, j - 1, c));
                                    assert(cat_listed(prev, c));
                                    let k = choose|k: int|
                                        0 <= k < prev.len() && (#[trigger] prev[k])@ == c;
                                    assert(r@[k]@ == c);
                                    assert(cat_listed(r@, c));
                                }
                            }
                        }
                    }
                }
            }
            i = i + 1;
            proof {
                lemma_fed_row_end(self@.slots, i - 1, source_entry.depict@.len() as int);
                assert forall|c: Seq<char>| #[trigger] cat_listed(r@, c) <==> cat_fed_upto(
                    self@.slots,
                    i as int,
                    0,
                    c,
                ) by {}
            }
        }
        proof {
            assert forall|c: Seq<char>| #[trigger] cat_listed(r@, c) <==> cat_fed(
                self@.slots,
                c,
            ) by {
                lemma_fed_end(self@.slots, c);
            }
        }
        r
    }
}

/// The category appears in the list.
pub open spec fn cat_listed(r: Seq<DepictionCategory>, c: Seq<char>) -> bool {
    exists|k: int| 0 <= k < r.len() && (#[trigger] r[k])@ == c
}

pub open spec fn fed_witness(
    slots: Seq<SlotView>,
    i: int,
    j: int,
    c: Seq<char>,
    a: int,
    jj: int,
) -> bool {
    &&& 0 <= a < slots.len()
    &&& 0 <= jj < slots[a].depict.len()
    &&& (a < i || (a == i && jj < j))
    &&& slots[a].depict[jj] == c
}

/// The category is fed by a slot before row `i`, or by slot `i` before
/// column `j`.
pub open spec fn cat_fed_upto(slots: Seq<SlotView>, i: int, j: int, c: Seq<char>) -> bool {
    exists|a: int, jj: int| #[trigger] fed_witness(slots, i, j, c, a, jj)
}

/// Some configured slot feeds the category.
pub open spec fn cat_fed(slots: Seq<SlotView>, c: Seq<char>) -> bool {
    cat_fed_upto(slots, slots.len() as int, 0, c)
}

proof fn lemma_fed_step(slots: Seq<SlotView>, i: int, j: int, c: Seq<char>)
    requires
        0 <= i < slots.len(),
        0 <= j < slots[i].depict.len(),
        slots[i].depict[j] == c,
    ensures
        forall|d: Seq<char>| #[trigger] cat_fed_upto(slots, i, j + 1, d) <==> (cat_fed_upto(
            slots,
            i,
            j,
            d,
        ) || d == c),
{
    assert forall|d: Seq<char>| #[trigger] cat_fed_upto(slots, i, j + 1, d) <==> (cat_fed_upto(
        slots,
        i,
        j,
        d,
    ) || d == c) by {
        if cat_fed_upto(slots, i, j + 1, d) {
            let (a, jj): (int, int) = choose|a: int, jj: int|
                #[trigger] fed_witness(slots, i, j + 1, d, a, jj);
            if a == i && jj == j {
                assert(d == c);
            } else {
                assert(fed_witness(slots, i, j, d, a, jj));
            }
        }
        if cat_fed_upto(slots, i, j, d) {
            let (a, jj): (int, int) = choose|a: int, jj: int|
                #[trigger] fed_witness(slots, i, j, d, a, jj);
            assert(fed_witness(slots, i, j + 1, d, a, jj));
        }
        if d == c {
            assert(fed_witness(slots, i, j + 1, d, i, j));
        }
    }
}

proof fn lemma_fed_row_end(slots: Seq<SlotView>, i: int, n: int)
    requires
        0 <= i < slots.len(),
        n == slots[i].depict.len(),
    ensures
        forall|d: Seq<char>| #[trigger] cat_fed_upto(slots, i, n, d) <==> cat_fed_upto(
            slots,
            i + 1,
            0,
            d,
        ),
{
    assert forall|d: Seq<char>| #[trigger] cat_fed_upto(slots, i, n, d) <==> cat_fed_upto(
        slots,
        i + 1,
        0,
        d,
    ) by {
        if cat_fed_upto(slots, i, n, d) {
            let (a, jj): (int, int) = choose|a: int, jj: int|
                #[trigger] fed_witness(slots, i, n, d, a, jj);
            assert(fed_witness(slots, i + 1, 0, d, a, jj));
        }
        if cat_fed_upto(slots, i + 1, 0, d) {
            let (a, jj): (int, int) = choose|a: int, jj: int|
                #[trigger] fed_witness(slots, i + 1, 0, d, a, jj);
            assert(fed_witness(slots, i, n, d, a, jj));
        }
    }
}

proof fn lemma_fed_end(slots: Seq<SlotView>, c: Seq<char>)
    ensures
        cat_fed_upto(slots, slots.len() as int, 0, c) <==> cat_fed(slots, c),
{
}


/// A refresh touches no other category: when one slot's records change
/// and nothing else does, every category that slot does not feed merges
/// to exactly what it merged to before.
pub proof fn lemma_refresh_isolated_to_its_categories(
    v1: FetchedDataSetView,
    v2: FetchedDataSetView,
    changed: int,
    cat: Seq<char>,
)
    requires
        v1.overrides == v2.overrides,
        v1.slots.len() == v2.slots.len(),
        0 <= changed < v1.slots.len(),
        forall|k: int| 0 <= k < v1.slots.len() && k != changed ==> v1.slots[k] == #[trigger]
            v2.slots[k],
        v1.slots[changed].depict == v2.slots[changed].depict,
        !v1.slots[changed].depict.contains(cat),
    ensures
        merged_spec(v2, cat) == merged_spec(v1, cat),
{
    lemma_merged_from_same(v1.overrides, v1.slots, v2.slots, changed, cat, 0);
}

proof fn lemma_merged_from_same(
    ov: OverridesView,
    s1: Seq<SlotView>,
    s2: Seq<SlotView>,
    changed: int,
    cat: Seq<char>,
    i: int,
)
    requires
        s1.len() == s2.len(),
        0 <= changed < s1.len(),
        forall|k: int| 0 <= k < s1.len() && k != changed ==> s1[k] == #[trigger] s2[k],
        s1[changed].depict == s2[changed].depict,
        !s1[changed].depict.contains(cat),
    ensures
        merged_from(ov, s2, cat, i) == merged_from(ov, s1, cat, i),
    decreases s1.len() - i,
{
    if i < 0 || i >= s1.len() {
    } else {
        lemma_merged_from_same(ov, s1, s2, changed, cat, i + 1);
        if i == changed {
            assert(slot_contribution(ov, s1[i], cat) =~= Seq::<MapEntryView>::empty());
            assert(slot_contribution(ov, s2[i], cat) =~= Seq::<MapEntryView>::empty());
        } else {
            assert(s1[i] == s2[i]);
        }
    }
}


/// The snapshot to republish for one category: the full merge of every
/// contributing slot's current records, serialized once. Storing it into
/// the category's cell is the one-line swap the caller performs.
pub fn rebuild_category(set: &FetchedDataSet, category: &DepictionCategory) -> (r:
    crate::display_data_set::DisplayDataSetEntry)
    ensures
        r.entries_spec() == merged_spec(set@, category@),
        r.json_spec() == crate::codec::enc_entries(merged_spec(set@, category@)),
{
    let entries = set.build_data_for_depiction_category(category);
    crate::display_data_set::DisplayDataSetEntry::new(entries)
}

/// The given categories, each once, in first-appearance order.
pub fn dedup_categories(v: &Vec<DepictionCategory>) -> (r: Vec<DepictionCategory>)
    ensures
        forall|c: Seq<char>| #[trigger] cat_listed(r@, c) <==> cat_listed(v@, c),
        forall|k1: int, k2: int| 0 <= k1 < k2 < r@.len() ==> (#[trigger] r@[k1])@ != (
        #[trigger] r@[k2])@,
{
    let mut r: Vec<DepictionCategory> = Vec::new();
    let mut i: usize = 0;
    proof {
        assert forall|c: Seq<char>| #[trigger] cat_listed(r@, c) <==> cat_listed(
            v@.take(0),
            c,
        ) by {
            if cat_listed(r@, c) {
                let k = choose|k: int| 0 <= k < r@.len() && (#[trigger] r@[k])@ == c;
            }
            if cat_listed(v@.take(0), c) {
                let k = choose|k: int|
                    0 <= k < v@.take(0).len() && (#[trigger] v@.take(0)[k])@ == c;
            }
        }
    }
    while i < v.len()
        invariant
            i <= v@.len(),
            forall|c: Seq<char>| #[trigger] cat_listed(r@, c) <==> cat_listed(
                v@.take(i as int),
                c,
            ),
            forall|k1: int, k2: int| 0 <= k1 < k2 < r@.len() ==> (#[trigger] r@[k1])@ != (
            #[trigger] r@[k2])@,
        decreases v@.len() - i,
    {
        let cat = &v[i];
        let mut present = false;
        let mut k: usize = 0;
        while k < r.len()
            invariant
                k <= r@.len(),
                present ==> cat_listed(r@, cat@),
                !present ==> forall|w: int| 0 <= w < k ==> (#[trigger] r@[w])@ != cat@,
            decreases r@.len() - k,
        {
            if !present {
                if r[k].0 == cat.0 {
                    present = true;
                    proof {
                        assert(r@[k as int]@ == cat@);
                        assert(cat_listed(r@, cat@));
                    }
                }
            }
            k = k + 1;
        }
        let ghost prev = r@;
        if !present {
            r.push(cat.clone());
            proof {
                assert(r@ == prev.push(r@[r@.len() - 1]));
                assert(r@[r@.len() - 1]@ == cat@);
                assert forall|k1: int, k2: int| 0 <= k1 < k2 < r@.len() implies (
                #[trigger] r@[k1])@ != (#[trigger] r@[k2])@ by {
                    if k2 < r@.len() - 1 {
                        assert(r@[k1] == prev[k1] && r@[k2] == prev[k2]);
                    } else {
                        assert(r@[k1] == prev[k1]);
                        assert(r@[k2]@ == cat@);
                    }
                }
            }
        }
        i = i + 1;
        proof {
            let t = v@.take(i as int);
            assert(t[i - 1] == v@[i - 1]);
            assert(v@[i as int - 1]@ == cat@);
            assert forall|c: Seq<char>| #[trigger] cat_listed(r@, c) <==> cat_listed(t, c) by {
                if present {
                    assert(r@ == prev);
                    if cat_listed(r@, c) {
                        let w = choose|w: int|
                            0 <= w < prev.len() && (#[trigger] prev[w])@ == c;
                        assert(cat_listed(v@.take(i - 1), c));
                        let u = choose|u: int|
                            0 <= u < v@.take(i - 1).len() && (#[trigger] v@.take(i - 1)[u])@
                                == c;
                        assert(t[u]@ == c);
                        assert(cat_listed(t, c));
                    }
                    if cat_listed(t, c) {
                        let w = choose|w: int| 0 <= w < t.len() && (#[trigger] t[w])@ == c;
                        if w == i - 1 {
                            assert(c == cat@);
                            assert(cat_listed(r@, c));
                        } else {
                            assert(v@.take(i - 1)[w]@ == c);
                            assert(cat_listed(v@.take(i - 1), c));
                        }
                    }
                } else {
                    if cat_listed(r@, c) {
                        let w = choose|w: int| 0 <= w < r@.len() && (#[trigger] r@[w])@ == c;
                        if w < prev.len() {
                            assert(prev[w]@ == c);
                            assert(cat_listed(prev, c));
                            let u = choose|u: int|
                                0 <= u < v@.take(i - 1).len() && (#[trigger] v@.take(i - 1)[
                                    u
                                ])@ == c;
                            assert(t[u]@ == c);
                            assert(cat_listed(t, c));
                        } else {
                            assert(c == cat@);
                            assert(cat_listed(t, c));
                        }
                    }
                    if cat_listed(t, c) {
                        let w = choose|w: int| 0 <= w < t.len() && (#[trigger] t[w])@ == c;
                        if w == i - 1 {
                            assert(c == cat@);
                            assert(r@[r@.len() - 1]@ == c);
                            assert(cat_listed(r@, c));
                        } else {
                            assert(v@.take(i - 1)[w]@ == c);
                            assert(cat_listed(v@.take(i - 1), c));
                            assert(cat_listed(prev, c));
                            let u = choose|u: int|
                                0 <= u < prev.len() && (#[trigger] prev[u])@ == c;
                            assert(r@[u]@ == c);
                            assert(cat_listed(r@, c));
                        }
                    }
                }
            }
        }
    }
    proof {
        assert(v@.take(v@.len() as int) =~= v@);
    }
    r
}

} // verus!
