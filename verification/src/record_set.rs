//! The deterministic, automatically de-duplicating ordered set of records
//! that each source's stored public content lives in. Records are kept
//! strictly sorted in the record order (the lexicographic order of their
//! canonical encodings), so equal records collapse and iteration order is
//! deterministic.
use vstd::prelude::*;
use crate::map_entry::MapEntry;
use crate::map_entry::MapEntryView;
use crate::order::entry_cmp;
use crate::order::lemma_entry_cmp_antisym;
use crate::order::lemma_entry_cmp_eq;
use crate::order::lemma_entry_cmp_trans;
use crate::order::map_entry_cmp;

verus! {

/// Strictly ascending in the record order: no duplicates, fixed iteration
/// order.
pub open spec fn strictly_sorted(s: Seq<MapEntryView>) -> bool {
    forall|i: int, j: int| 0 <= i < j < s.len() ==> entry_cmp(#[trigger] s[i], #[trigger] s[j])
        < 0
}

/// What inserting a record at its sorted position does to the sequence:
/// order is kept, membership grows by the record, and the record was not
/// already present.
proof fn lemma_sorted_insert(orig: Seq<MapEntryView>, pos: int, ev: MapEntryView)
    requires
        strictly_sorted(orig),
        0 <= pos <= orig.len(),
        forall|k: int| 0 <= k < pos ==> entry_cmp(#[trigger] orig[k], ev) < 0,
        pos == orig.len() || entry_cmp(orig[pos], ev) > 0,
    ensures
        strictly_sorted(orig.insert(pos, ev)),
        !orig.contains(ev),
        forall|x: MapEntryView| orig.insert(pos, ev).contains(x) <==> orig.contains(x) || x
            == ev,
{
    let cur = orig.insert(pos, ev);
    orig.insert_ensures(pos, ev);
    if pos < orig.len() {
        lemma_entry_cmp_antisym(orig[pos], ev);
    }
    assert forall|a: int, b: int| 0 <= a < b < cur.len() implies entry_cmp(
        #[trigger] cur[a],
        #[trigger] cur[b],
    ) < 0 by {
        if a < pos && b < pos {
            assert(cur[a] == orig[a] && cur[b] == orig[b]);
        } else if a < pos && b == pos {
            assert(cur[a] == orig[a] && cur[b] == ev);
        } else if a < pos && b > pos {
            assert(cur[a] == orig[a] && cur[b] == orig[b - 1]);
        } else if a == pos && b > pos {
            assert(cur[a] == ev && cur[b] == orig[b - 1]);
            if pos < b - 1 {
                lemma_entry_cmp_trans(ev, orig[pos], orig[b - 1]);
            }
        } else {
            assert(a > pos && b > pos);
            assert(cur[a] == orig[a - 1] && cur[b] == orig[b - 1]);
        }
    }
    assert(!orig.contains(ev)) by {
        if orig.contains(ev) {
            let w = choose|w: int| 0 <= w < orig.len() && orig[w] == ev;
            if w < pos {
                lemma_entry_cmp_eq(orig[w], ev);
            } else if w == pos {
                lemma_entry_cmp_eq(orig[w], ev);
            } else {
                lemma_entry_cmp_trans(ev, orig[pos], orig[w]);
                lemma_entry_cmp_eq(orig[w], ev);
                lemma_entry_cmp_antisym(orig[w], ev);
            }
        }
    }
    assert forall|x: MapEntryView| cur.contains(x) <==> orig.contains(x) || x == ev by {
        if cur.contains(x) {
            let w = choose|w: int| 0 <= w < cur.len() && cur[w] == x;
            if w < pos {
                assert(orig[w] == x);
                assert(orig.contains(x));
            } else if w == pos {
                assert(x == ev);
            } else {
                assert(orig[w - 1] == x);
                assert(orig.contains(x));
            }
        }
        if orig.contains(x) {
            let w = choose|w: int| 0 <= w < orig.len() && orig[w] == x;
            if w < pos {
                assert(cur[w] == x);
                assert(cur.contains(x));
            } else {
                assert(cur[w + 1] == x);
                assert(cur.contains(x));
            }
        }
        if x == ev {
            assert(cur[pos] == ev);
            assert(cur.contains(x));
        }
    }
}

/// An ordered set of records.
#[derive(Debug)]
pub struct RecordSet {
    entries: Vec<MapEntry>,
}

impl View for RecordSet {
    type V = Seq<MapEntryView>;

    closed spec fn view(&self) -> Seq<MapEntryView> {
        self.entries.deep_view()
    }
}

impl RecordSet {
    /// Sorted without duplicates.
    pub open spec fn inv(&self) -> bool {
        strictly_sorted(self@)
    }

    pub fn new() -> (r: Self)
        ensures
            r@ == Seq::<MapEntryView>::empty(),
            r.inv(),
    {
        let r = RecordSet { entries: Vec::new() };
        proof {
            assert(r@ =~= Seq::<MapEntryView>::empty());
        }
        r
    }

    pub fn len(&self) -> (r: usize)
        ensures
            r == self@.len(),
    {
        self.entries.len()
    }

    pub fn get(&self, i: usize) -> (r: &MapEntry)
        requires
            i < self@.len(),
        ensures
            r@ == self@[i as int],
    {
        &self.entries[i]
    }

    /// Add one record; an already-present record changes nothing.
    pub fn insert(&mut self, e: MapEntry)
        requires
            old(self).inv(),
        ensures
            final(self).inv(),
            forall|x: MapEntryView| final(self)@.contains(x) <==> old(self)@.contains(x) || x
                == e@,
            old(self)@.contains(e@) ==> final(self)@ == old(self)@,
            !old(self)@.contains(e@) ==> final(self)@.len() == old(self)@.len() + 1,
    {
        let ghost orig = self@;
        let mut i: usize = 0;
        loop
            invariant
                self@ == orig,
                self.inv(),
                i <= self@.len(),
                self.entries@.len() == self@.len(),
                forall|k: int| 0 <= k < i ==> entry_cmp(#[trigger] orig[k], e@) < 0,
            ensures
                self@ == orig,
                self.inv(),
                i <= orig.len(),
                self.entries@.len() == orig.len(),
                forall|k: int| 0 <= k < i ==> entry_cmp(#[trigger] orig[k], e@) < 0,
                i == orig.len() || entry_cmp(orig[i as int], e@) > 0,
            decreases self@.len() - i,
        {
            if i == self.entries.len() {
                break;
            }
            let c = map_entry_cmp(&self.entries[i], &e);
            proof {
                assert(self.entries@[i as int].deep_view() == orig[i as int]);
                lemma_entry_cmp_eq(orig[i as int], e@);
            }
            if c == 0 {
                proof {
                    assert(orig[i as int] == e@);
                    assert(orig.contains(e@));
                }
                return ;
            } else if c > 0 {
                break;
            }
            i = i + 1;
        }
        let ghost ev = e@;
        let ghost pos = i as int;
        self.entries.insert(i, e);
        proof {
            lemma_sorted_insert(orig, pos, ev);
            let cur = self@;
            orig.insert_ensures(pos, ev);
            assert forall|k: int| 0 <= k < cur.len() implies cur[k] == orig.insert(pos, ev)[k] by {
                assert(cur[k] == self.entries@[k].deep_view());
            }
            assert(cur =~= orig.insert(pos, ev));
        }
    }

    /// The records in order, as a fresh vector.
    pub fn entries_vec(&self) -> (r: Vec<MapEntry>)
        ensures
            r.deep_view() == self@,
    {
        let mut r: Vec<MapEntry> = Vec::new();
        let mut i: usize = 0;
        while i < self.entries.len()
            invariant
                i <= self.entries.len(),
                r@.len() == i as int,
                r.deep_view() =~= self@.take(i as int),
                self.entries@.len() == self@.len(),
            decreases self.entries.len() - i,
        {
            let ghost prev_dv = r.deep_view();
            let ghost prev_seq = r@;
            let c = self.entries[i].clone();
            let ghost cv = c@;
            r.push(c);
            i = i + 1;
            proof {
                assert(r@ == prev_seq.push(r@[i - 1]));
                assert forall|k: int| 0 <= k < i implies r.deep_view()[k] == self@[k] by {
                    if k < i - 1 {
                        assert(r@[k] == prev_seq[k]);
                        assert(prev_dv[k] == self@.take(i - 1)[k]);
                    } else {
                        assert(r@[k].deep_view() == cv);
                        assert(cv == self.entries@[k].deep_view());
                    }
                }
                assert(r.deep_view() =~= self@.take(i as int));
            }
        }
        proof {
            assert(r.deep_view() =~= self@);
        }
        r
    }

    /// The set of the records of a vector, duplicates collapsed.
    pub fn from_records(v: Vec<MapEntry>) -> (r: Self)
        ensures
            r.inv(),
            forall|x: MapEntryView| r@.contains(x) <==> v.deep_view().contains(x),
    {
        let mut r = RecordSet::new();
        let ghost dv = v.deep_view();
        let mut i: usize = 0;
        proof {
            assert(v@.len() == dv.len());
        }
        while i < v.len()
            invariant
                r.inv(),
                i <= v@.len(),
                v.deep_view() == dv,
                v@.len() == dv.len(),
                forall|x: MapEntryView| r@.contains(x) <==> dv.take(i as int).contains(x),
            decreases v@.len() - i,
        {
            let ghost prev = r@;
            let e = v[i].clone();
            proof {
                assert(v@[i as int].deep_view() == dv[i as int]);
            }
            let ghost ev = e@;
            r.insert(e);
            i = i + 1;
            proof {
                assert forall|x: MapEntryView| r@.contains(x) <==> dv.take(i as int).contains(
                    x,
                ) by {
                    let t = dv.take(i as int);
                    assert(t.len() == i);
                    assert(t[i - 1] == dv[i - 1]);
                    if r@.contains(x) {
                        if x == ev {
                            assert(t.contains(x));
                        } else {
                            assert(prev.contains(x));
                            let w = choose|w: int|
                                0 <= w < dv.take(i - 1).len() && #[trigger] dv.take(i - 1)[w]
                                    == x;
                            assert(t[w] == x);
                            assert(t.contains(x));
                        }
                    }
                    if t.contains(x) {
                        let w = choose|w: int| 0 <= w < t.len() && t[w] == x;
                        if w == i - 1 {
                            assert(x == ev);
                            assert(r@.contains(x));
                        } else {
                            assert(dv.take(i - 1)[w] == x);
                            assert(dv.take(i - 1).contains(x));
                            assert(r@.contains(x));
                        }
                    }
                }
            }
        }
        proof {
            assert(dv.take(dv.len() as int) =~= dv);
            assert forall|x: MapEntryView| r@.contains(x) <==> v.deep_view().contains(x) by {
                assert(r@.contains(x) <==> dv.take(dv.len() as int).contains(x));
            }
        }
        r
    }
}


/// The ordered set is deterministic: two strictly sorted record sequences
/// with the same members are the same sequence, whatever order their
/// records arrived in.
pub proof fn lemma_sorted_set_deterministic(s1: Seq<MapEntryView>, s2: Seq<MapEntryView>)
    requires
        strictly_sorted(s1),
        strictly_sorted(s2),
        forall|x: MapEntryView| s1.contains(x) <==> s2.contains(x),
    ensures
        s1 == s2,
    decreases s1.len(),
{
    if s1.len() == 0 {
        if s2.len() > 0 {
            assert(s2.contains(s2[0]));
            assert(s1.contains(s2[0]));
        }
        assert(s1 =~= s2);
    } else {
        assert(s1.contains(s1[0]));
        assert(s2.contains(s1[0]));
        let k = choose|k: int| 0 <= k < s2.len() && s2[k] == s1[0];
        assert(s2.contains(s2[0]));
        assert(s1.contains(s2[0]));
        let m = choose|m: int| 0 <= m < s1.len() && s1[m] == s2[0];
        if k > 0 {
            assert(entry_cmp(s2[0], s2[k]) < 0);
            if m > 0 {
                assert(entry_cmp(s1[0], s1[m]) < 0);
                lemma_entry_cmp_trans(s1[0], s2[0], s1[0]);
                lemma_entry_cmp_eq(s1[0], s1[0]);
            } else {
                lemma_entry_cmp_eq(s2[0], s2[0]);
            }
        }
        assert(s1[0] == s2[0]);
        let t1 = s1.skip(1);
        let t2 = s2.skip(1);
        assert(strictly_sorted(t1)) by {
            assert(forall|a: int, b: int|
                0 <= a < b < t1.len() ==> t1[a] == s1[a + 1] && t1[b] == s1[b + 1]);
        }
        assert(strictly_sorted(t2)) by {
            assert(forall|a: int, b: int|
                0 <= a < b < t2.len() ==> t2[a] == s2[a + 1] && t2[b] == s2[b + 1]);
        }
        assert forall|x: MapEntryView| t1.contains(x) <==> t2.contains(x) by {
            if t1.contains(x) {
                let w = choose|w: int| 0 <= w < t1.len() && t1[w] == x;
                assert(s1[w + 1] == x);
                assert(s1.contains(x));
                assert(x != s1[0]) by {
                    assert(entry_cmp(s1[0], s1[w + 1]) < 0);
                    lemma_entry_cmp_eq(s1[0], s1[w + 1]);
                }
                assert(s2.contains(x));
                let v = choose|v: int| 0 <= v < s2.len() && s2[v] == x;
                assert(v != 0);
                assert(t2[v - 1] == x);
                assert(t2.contains(x));
            }
            if t2.contains(x) {
                let w = choose|w: int| 0 <= w < t2.len() && t2[w] == x;
                assert(s2[w + 1] == x);
                assert(s2.contains(x));
                assert(x != s2[0]) by {
                    assert(entry_cmp(s2[0], s2[w + 1]) < 0);
                    lemma_entry_cmp_eq(s2[0], s2[w + 1]);
                }
                assert(s1.contains(x));
                let v = choose|v: int| 0 <= v < s1.len() && s1[v] == x;
                assert(v != 0);
                assert(t1[v - 1] == x);
                assert(t1.contains(x));
            }
        }
        lemma_sorted_set_deterministic(t1, t2);
        assert(s1 =~= s2) by {
            assert(s1.len() == t1.len() + 1 && s2.len() == t2.len() + 1);
            assert(forall|a: int| 1 <= a < s1.len() ==> #[trigger] s1[a] == t1[a - 1]);
            assert(forall|a: int| 1 <= a < s2.len() ==> #[trigger] s2[a] == t2[a - 1]);
        }
    }
}

} // verus!
