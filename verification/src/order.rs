//! The total order on records: lexicographic comparison of their canonical
//! encodings. Because the encoding is injective (proved from the decoder's
//! round trip), two records compare equal exactly when they are equal, so an
//! ordered set over this comparison collapses only identical records.
use vstd::prelude::*;
use crate::codec::enc_record;
use crate::codec::lemma_dec_record_round;
use crate::codec::matches_at;
use crate::codec::encode_entry;
use crate::map_entry::MapEntry;
use crate::map_entry::MapEntryView;

verus! {

/// Three-way lexicographic comparison of character sequences, starting at
/// position `i`: negative means less, zero equal, positive greater.
pub open spec fn chars_cmp_at(a: Seq<char>, b: Seq<char>, i: int) -> int
    decreases a.len() - i,
{
    if i < 0 {
        0
    } else if i >= a.len() && i >= b.len() {
        0
    } else if i >= a.len() {
        -1
    } else if i >= b.len() {
        1
    } else if (a[i] as int) < (b[i] as int) {
        -1
    } else if (b[i] as int) < (a[i] as int) {
        1
    } else {
        chars_cmp_at(a, b, i + 1)
    }
}

pub open spec fn chars_cmp(a: Seq<char>, b: Seq<char>) -> int {
    chars_cmp_at(a, b, 0)
}

pub proof fn lemma_chars_cmp_at_eq(a: Seq<char>, b: Seq<char>, i: int)
    requires
        0 <= i <= a.len(),
        i <= b.len(),
    ensures
        chars_cmp_at(a, b, i) == 0 <==> (a.len() == b.len() && forall|k: int|
            i <= k < a.len() ==> a[k] == b[k]),
    decreases a.len() - i,
{
    if i >= a.len() && i >= b.len() {
    } else if i >= a.len() || i >= b.len() {
    } else if (a[i] as int) < (b[i] as int) || (b[i] as int) < (a[i] as int) {
        assert(a[i] != b[i]);
    } else {
        assert(a[i] as int == b[i] as int);
        assert(a[i] == b[i]);
        lemma_chars_cmp_at_eq(a, b, i + 1);
    }
}

/// Comparing equal sequences gives zero; zero means the sequences are equal.
pub proof fn lemma_chars_cmp_eq(a: Seq<char>, b: Seq<char>)
    ensures
        chars_cmp(a, b) == 0 <==> a == b,
{
    lemma_chars_cmp_at_eq(a, b, 0);
    if chars_cmp(a, b) == 0 {
        assert(a =~= b);
    }
}

pub proof fn lemma_chars_cmp_at_antisym(a: Seq<char>, b: Seq<char>, i: int)
    requires
        0 <= i,
    ensures
        chars_cmp_at(a, b, i) == -chars_cmp_at(b, a, i),
    decreases a.len() + b.len() - i,
{
    if i >= a.len() && i >= b.len() {
    } else if i >= a.len() || i >= b.len() {
    } else if (a[i] as int) < (b[i] as int) || (b[i] as int) < (a[i] as int) {
    } else {
        lemma_chars_cmp_at_antisym(a, b, i + 1);
    }
}

pub proof fn lemma_chars_cmp_antisym(a: Seq<char>, b: Seq<char>)
    ensures
        chars_cmp(a, b) == -chars_cmp(b, a),
{
    lemma_chars_cmp_at_antisym(a, b, 0);
}

pub proof fn lemma_chars_cmp_at_trans(a: Seq<char>, b: Seq<char>, c: Seq<char>, i: int)
    requires
        0 <= i,
        chars_cmp_at(a, b, i) <= 0,
        chars_cmp_at(b, c, i) <= 0,
    ensures
        chars_cmp_at(a, c, i) <= 0,
        chars_cmp_at(a, b, i) < 0 || chars_cmp_at(b, c, i) < 0 ==> chars_cmp_at(a, c, i) < 0,
    decreases a.len() + b.len() + c.len() - i,
{
    if i >= a.len() {
    } else if i >= b.len() {
        assert(chars_cmp_at(a, b, i) > 0);
    } else if i >= c.len() {
        assert(chars_cmp_at(b, c, i) > 0);
    } else {
        if (a[i] as int) < (b[i] as int) {
            if (b[i] as int) <= (c[i] as int) {
            } else {
                assert(chars_cmp_at(b, c, i) > 0);
            }
        } else if (b[i] as int) < (a[i] as int) {
            assert(chars_cmp_at(a, b, i) > 0);
        } else {
            if (b[i] as int) < (c[i] as int) {
            } else if (c[i] as int) < (b[i] as int) {
                assert(chars_cmp_at(b, c, i) > 0);
            } else {
                lemma_chars_cmp_at_trans(a, b, c, i + 1);
            }
        }
    }
}

/// The comparison is transitive, strictly so when either step is strict.
pub proof fn lemma_chars_cmp_trans(a: Seq<char>, b: Seq<char>, c: Seq<char>)
    requires
        chars_cmp(a, b) <= 0,
        chars_cmp(b, c) <= 0,
    ensures
        chars_cmp(a, c) <= 0,
        chars_cmp(a, b) < 0 || chars_cmp(b, c) < 0 ==> chars_cmp(a, c) < 0,
{
    lemma_chars_cmp_at_trans(a, b, c, 0);
}

fn chars_cmp_exec(a: &str, b: &str, an: usize, bn: usize, i: usize) -> (r: i8)
    requires
        an == a@.len(),
        bn == b@.len(),
        i <= an,
        i <= bn,
    ensures
        r as int == chars_cmp_at(a@, b@, i as int),
    decreases an - i,
{
    if i == an && i == bn {
        0
    } else if i == an {
        -1
    } else if i == bn {
        1
    } else {
        let cca = a.get_char(i);
        let ccb = b.get_char(i);
        let ca = cca as u32;
        let cb = ccb as u32;
        proof {
            assert(cca as u32 as int == cca as int);
            assert(ccb as u32 as int == ccb as int);
        }
        if ca < cb {
            -1
        } else if cb < ca {
            1
        } else {
            chars_cmp_exec(a, b, an, bn, i + 1)
        }
    }
}

/// Three-way comparison of two strings by their characters.
pub fn str_cmp(a: &str, b: &str) -> (r: i8)
    ensures
        r as int == chars_cmp(a@, b@),
{
    let an = a.unicode_len();
    let bn = b.unicode_len();
    chars_cmp_exec(a, b, an, bn, 0)
}

/// The record order: records compare as their canonical encodings do.
pub open spec fn entry_cmp(a: MapEntryView, b: MapEntryView) -> int {
    chars_cmp(enc_record(a), enc_record(b))
}

/// The canonical encoding is injective: records with the same encoding
/// are the same record. Follows from the decoder round trip.
pub proof fn lemma_enc_record_injective(a: MapEntryView, b: MapEntryView)
    requires
        enc_record(a) == enc_record(b),
    ensures
        a == b,
{
    let s = enc_record(a);
    assert(s.subrange(0, s.len() as int) =~= s);
    assert(matches_at(s, 0, enc_record(a)));
    assert(matches_at(s, 0, enc_record(b)));
    lemma_dec_record_round(s, 0, a, s.len() as int);
    lemma_dec_record_round(s, 0, b, s.len() as int);
}

/// Two records compare equal exactly when they are equal: the order
/// collapses only identical records.
pub proof fn lemma_entry_cmp_eq(a: MapEntryView, b: MapEntryView)
    ensures
        entry_cmp(a, b) == 0 <==> a == b,
{
    lemma_chars_cmp_eq(enc_record(a), enc_record(b));
    if entry_cmp(a, b) == 0 {
        lemma_enc_record_injective(a, b);
    }
}

pub proof fn lemma_entry_cmp_antisym(a: MapEntryView, b: MapEntryView)
    ensures
        entry_cmp(a, b) == -entry_cmp(b, a),
{
    lemma_chars_cmp_antisym(enc_record(a), enc_record(b));
}

pub proof fn lemma_entry_cmp_trans(a: MapEntryView, b: MapEntryView, c: MapEntryView)
    requires
        entry_cmp(a, b) <= 0,
        entry_cmp(b, c) <= 0,
    ensures
        entry_cmp(a, c) <= 0,
        entry_cmp(a, b) < 0 || entry_cmp(b, c) < 0 ==> entry_cmp(a, c) < 0,
{
    lemma_chars_cmp_trans(enc_record(a), enc_record(b), enc_record(c));
}

/// Three-way comparison of two records in the record order.
pub fn map_entry_cmp(a: &MapEntry, b: &MapEntry) -> (r: i8)
    ensures
        r as int == entry_cmp(a@, b@),
{
    let ea = encode_entry(a);
    let eb = encode_entry(b);
    str_cmp(ea.as_str(), eb.as_str())
}

} // verus!
