//! The JSON form of records, record lists and the refresh metadata, and
//! its verified decoder.
//!
//! The encoder writes one canonical JSON text per value: objects with the
//! fields in declaration order and no spaces, coordinates as fixed-point
//! decimals with nine fractional digits, one record per line in a list.
//! Decoding a canonical text gives the value back (proved below), and the
//! record total order used by `RecordSet` is the lexicographic order of
//! these texts. The decoder additionally tolerates whitespace between
//! tokens and shorter coordinate fractions, so files written by an earlier
//! pretty-printing serializer still load.
use vstd::prelude::*;
use crate::GeoPos;
use crate::ElementId;
use crate::ElementIdView;
use crate::map_entry::ImageSourceView;
use crate::map_entry::MapEntryImageSource;
use crate::map_entry::MapEntry;
use crate::map_entry::MapEntryView;
use crate::map_entry::opt_string_view;

verus! {

/// Relies on String::push: appends exactly the one character.
pub assume_specification[ String::push ](s: &mut String, c: char)
    ensures
        final(s)@ == old(s)@.push(c),
;

pub open spec fn is_digit(c: char) -> bool {
    48 <= c as u32 <= 57
}

pub open spec fn digit_val(c: char) -> int {
    c as u32 as int - 48
}

pub open spec fn digit_char(d: int) -> char {
    if d == 1 {
        '1'
    } else if d == 2 {
        '2'
    } else if d == 3 {
        '3'
    } else if d == 4 {
        '4'
    } else if d == 5 {
        '5'
    } else if d == 6 {
        '6'
    } else if d == 7 {
        '7'
    } else if d == 8 {
        '8'
    } else if d == 9 {
        '9'
    } else {
        '0'
    }
}

/// Decimal digits of a nonnegative integer, most significant first.
pub open spec fn dec_spec(n: int) -> Seq<char>
    decreases n,
{
    if n < 10 {
        seq![digit_char(n)]
    } else {
        dec_spec(n / 10).push(digit_char(n % 10))
    }
}

/// Value of a digit string, read left to right.
pub open spec fn val_of_digits(s: Seq<char>) -> int
    decreases s.len(),
{
    if s.len() == 0 {
        0
    } else {
        val_of_digits(s.drop_last()) * 10 + digit_val(s.last())
    }
}

/// The pattern `pat` occurs in `s` at position `i`.
pub open spec fn matches_at(s: Seq<char>, i: int, pat: Seq<char>) -> bool {
    &&& 0 <= i
    &&& i + pat.len() <= s.len()
    &&& s.subrange(i, i + pat.len()) == pat
}

pub proof fn lemma_matches_concat(s: Seq<char>, i: int, a: Seq<char>, b: Seq<char>)
    requires
        matches_at(s, i, a + b),
    ensures
        matches_at(s, i, a),
        matches_at(s, i + a.len(), b),
{
    assert(s.subrange(i, i + a.len()) =~= a) by {
        assert forall|k: int| 0 <= k < a.len() implies s.subrange(i, i + a.len())[k] == a[k] by {
            assert(s.subrange(i, i + (a + b).len())[k] == (a + b)[k]);
        }
    }
    assert(s.subrange(i + a.len(), i + a.len() + b.len()) =~= b) by {
        assert forall|k: int| 0 <= k < b.len() implies s.subrange(
            i + a.len(),
            i + a.len() + b.len(),
        )[k] == b[k] by {
            assert(s.subrange(i, i + (a + b).len())[k + a.len()] == (a + b)[k + a.len()]);
        }
    }
}

pub proof fn lemma_dec_spec_digits(n: int)
    requires
        n >= 0,
    ensures
        dec_spec(n).len() >= 1,
        forall|k: int| 0 <= k < dec_spec(n).len() ==> is_digit(#[trigger] dec_spec(n)[k]),
    decreases n,
{
    if n < 10 {
    } else {
        lemma_dec_spec_digits(n / 10);
    }
}

pub proof fn lemma_val_dec(n: int)
    requires
        n >= 0,
    ensures
        val_of_digits(dec_spec(n)) == n,
    decreases n,
{
    if n < 10 {
        let s = seq![digit_char(n)];
        assert(dec_spec(n) == s);
        assert(s.drop_last() =~= Seq::<char>::empty());
        assert(s.last() == digit_char(n));
        assert(val_of_digits(Seq::<char>::empty()) == 0);
        assert(val_of_digits(s) == val_of_digits(s.drop_last()) * 10 + digit_val(s.last()));
        assert(digit_val(digit_char(n)) == n);
        assert(val_of_digits(dec_spec(n)) == n);
    } else {
        lemma_val_dec(n / 10);
        let d = dec_spec(n / 10);
        let c = digit_char(n % 10);
        assert(digit_val(c) == n % 10);
        assert(dec_spec(n) == d.push(c));
        assert(d.push(c).drop_last() =~= d);
        assert(d.push(c).last() == c);
        assert(val_of_digits(d.push(c)) == val_of_digits(d) * 10 + digit_val(c));
        assert(val_of_digits(dec_spec(n)) == (n / 10) * 10 + n % 10);
        assert((n / 10) * 10 + n % 10 == n);
    }
}

pub proof fn lemma_val_nonneg(s: Seq<char>)
    requires
        forall|k: int| 0 <= k < s.len() ==> is_digit(#[trigger] s[k]),
    ensures
        val_of_digits(s) >= 0,
    decreases s.len(),
{
    if s.len() > 0 {
        lemma_val_nonneg(s.drop_last());
    }
}

pub proof fn lemma_val_step(s: Seq<char>, k: int)
    requires
        0 <= k < s.len(),
    ensures
        val_of_digits(s.subrange(0, k + 1)) == val_of_digits(s.subrange(0, k)) * 10 + digit_val(
            s[k],
        ),
{
    let p = s.subrange(0, k + 1);
    assert(p.drop_last() =~= s.subrange(0, k));
    assert(p.last() == s[k]);
}

pub proof fn lemma_val_prefix_le(s: Seq<char>, k: int)
    requires
        forall|j: int| 0 <= j < s.len() ==> is_digit(#[trigger] s[j]),
        0 <= k <= s.len(),
    ensures
        val_of_digits(s.subrange(0, k)) <= val_of_digits(s),
    decreases s.len() - k,
{
    if k == s.len() {
        assert(s.subrange(0, k) =~= s);
    } else {
        lemma_val_prefix_le(s, k + 1);
        lemma_val_step(s, k);
        assert(forall|j: int|
            0 <= j < s.subrange(0, k).len() ==> is_digit(#[trigger] s.subrange(0, k)[j]));
        lemma_val_nonneg(s.subrange(0, k));
    }
}

pub open spec fn pow10(n: int) -> int
    decreases n,
{
    if n <= 0 {
        1
    } else {
        10 * pow10(n - 1)
    }
}

pub proof fn lemma_pow10_table()
    ensures
        pow10(0) == 1,
        pow10(1) == 10,
        pow10(2) == 100,
        pow10(3) == 1000,
        pow10(4) == 10000,
        pow10(5) == 100000,
        pow10(6) == 1000000,
        pow10(7) == 10000000,
        pow10(8) == 100000000,
        pow10(9) == 1000000000,
{
    assert(pow10(0) == 1);
    assert(pow10(1) == 10);
    assert(pow10(2) == 100);
    assert(pow10(3) == 1000);
    assert(pow10(4) == 10000);
    assert(pow10(5) == 100000);
    assert(pow10(6) == 1000000);
    assert(pow10(7) == 10000000);
    assert(pow10(8) == 100000000);
    assert(pow10(9) == 1000000000);
}

pub proof fn lemma_pow10_pos(k: int)
    ensures
        pow10(k) >= 1,
    decreases k,
{
    if k > 0 {
        lemma_pow10_pos(k - 1);
    }
}

pub proof fn lemma_pow10_mono(a: int, b: int)
    requires
        a <= b,
    ensures
        pow10(a) <= pow10(b),
    decreases b - a,
{
    if a < b {
        lemma_pow10_mono(a, b - 1);
        lemma_pow10_pos(b - 1);
        if b > 0 {
            assert(pow10(b) == 10 * pow10(b - 1));
        }
    }
}

pub proof fn lemma_pow10_split(count: int)
    requires
        0 <= count <= 9,
    ensures
        pow10(count) * pow10(9 - count) == pow10(9),
    decreases count,
{
    if count == 0 {
    } else {
        lemma_pow10_split(count - 1);
        assert(pow10(count) == 10 * pow10(count - 1));
        assert(pow10(count) * pow10(9 - count) == 10 * pow10(count - 1) * pow10(9 - count))
            by (nonlinear_arith)
            requires
                pow10(count) == 10 * pow10(count - 1),
        ;
        assert(pow10(9 - (count - 1)) == 10 * pow10(9 - count));
        assert(pow10(count - 1) * (10 * pow10(9 - count)) == 10 * pow10(count - 1) * pow10(
            9 - count,
        )) by (nonlinear_arith);
    }
}

/// JSON's insignificant whitespace.
pub open spec fn is_ws(c: char) -> bool {
    c == ' ' || c == '\n' || c == '\r' || c == '\t'
}

/// The first position at or after `i` that does not hold whitespace.
pub open spec fn skip_ws(s: Seq<char>, i: int) -> int
    decreases s.len() - i,
{
    if i < 0 || i >= s.len() {
        i
    } else if is_ws(s[i]) {
        skip_ws(s, i + 1)
    } else {
        i
    }
}

pub fn eat_ws(s: &str, n: usize, i: usize) -> (r: usize)
    requires
        n == s@.len(),
        i <= n,
    ensures
        r as int == skip_ws(s@, i as int),
        i <= r <= n,
    decreases n - i,
{
    if i == n {
        return i;
    }
    let c = s.get_char(i);
    if c == ' ' || c == '\n' || c == '\r' || c == '\t' {
        eat_ws(s, n, i + 1)
    } else {
        i
    }
}

/// Whether the literal occurs at `i`, consuming it when it does.
pub fn eat_lit(s: &str, n: usize, i: usize, lit: &str) -> (r: Option<usize>)
    requires
        n == s@.len(),
        i <= n,
    ensures
        r matches Some(j) ==> matches_at(s@, i as int, lit@) && j as int == i + lit@.len() && i
            <= j <= n,
        r is None ==> !matches_at(s@, i as int, lit@),
{
    let m = lit.unicode_len();
    if m > n - i {
        return None;
    }
    let mut k: usize = 0;
    while k < m
        invariant
            n == s@.len(),
            m == lit@.len(),
            i + m <= n,
            k <= m,
            forall|w: int| 0 <= w < k ==> s@[i + w] == lit@[w],
        decreases m - k,
    {
        if s.get_char(i + k) != lit.get_char(k) {
            proof {
                if matches_at(s@, i as int, lit@) {
                    assert(s@.subrange(i as int, i + lit@.len())[k as int] == lit@[k as int]);
                }
            }
            return None;
        }
        k = k + 1;
    }
    proof {
        assert(s@.subrange(i as int, i + lit@.len()) =~= lit@);
    }
    Some(i + m)
}

pub open spec fn hex_char(d: int) -> char {
    if d < 10 {
        digit_char(d)
    } else if d == 10 {
        'a'
    } else if d == 11 {
        'b'
    } else if d == 12 {
        'c'
    } else if d == 13 {
        'd'
    } else if d == 14 {
        'e'
    } else {
        'f'
    }
}

pub open spec fn hex_val(c: char) -> int {
    if is_digit(c) {
        digit_val(c)
    } else if 97 <= c as u32 <= 102 {
        c as u32 as int - 87
    } else if 65 <= c as u32 <= 70 {
        c as u32 as int - 55
    } else {
        16
    }
}

fn hex_digit(c: char) -> (r: u8)
    ensures
        r as int == hex_val(c),
{
    let cu = c as u32;
    if 48 <= cu && cu <= 57 {
        (cu - 48) as u8
    } else if 97 <= cu && cu <= 102 {
        (cu - 87) as u8
    } else if 65 <= cu && cu <= 70 {
        (cu - 55) as u8
    } else {
        16
    }
}

/// A decoded two-hex-digit escape: the character with that code.
pub open spec fn byte_char(v: int) -> char {
    (v as u8) as char
}

/// A maximal digit run from `i`: its value and where it ended. Needs at
/// least one digit; gives up past the largest unsigned value.
pub open spec fn dec_u64_run(s: Seq<char>, i: int, acc: u64, seen: bool) -> Option<(u64, int)>
    decreases s.len() - i,
{
    if i < 0 {
        None
    } else if i >= s.len() || !is_digit(s[i]) {
        if seen {
            Some((acc, i))
        } else {
            None
        }
    } else if acc * 10 + digit_val(s[i]) > u64::MAX {
        None
    } else {
        dec_u64_run(s, i + 1, (acc * 10 + digit_val(s[i])) as u64, true)
    }
}

pub open spec fn dec_u64(s: Seq<char>, i: int) -> Option<(u64, int)> {
    dec_u64_run(s, i, 0, false)
}

proof fn lemma_dec_u64_loop_round(s: Seq<char>, i: int, j: int, n: u64)
    requires
        matches_at(s, i, dec_spec(n as int)),
        i + dec_spec(n as int).len() >= s.len() || !is_digit(s[i + dec_spec(n as int).len()]),
        i <= j <= i + dec_spec(n as int).len(),
    ensures
        dec_u64_run(s, j, val_of_digits(dec_spec(n as int).subrange(0, j - i)) as u64, j > i)
            == Some((n, i + dec_spec(n as int).len())),
    decreases i + dec_spec(n as int).len() - j,
{
    let d = dec_spec(n as int);
    lemma_dec_spec_digits(n as int);
    lemma_val_dec(n as int);
    lemma_val_prefix_le(d, j - i);
    lemma_val_nonneg(d.subrange(0, j - i));
    let acc = val_of_digits(d.subrange(0, j - i)) as u64;
    if j == i + d.len() {
        assert(d.subrange(0, j - i) =~= d);
        assert(acc == n);
    } else {
        assert(s.subrange(i, i + d.len())[j - i] == s[j]);
        assert(s[j] == d[j - i]);
        assert(is_digit(s[j]));
        lemma_val_step(d, j - i);
        lemma_val_prefix_le(d, j - i + 1);
        assert(acc * 10 + digit_val(s[j]) == val_of_digits(d.subrange(0, j - i + 1)));
        assert(val_of_digits(d.subrange(0, j - i + 1)) <= n);
        lemma_dec_u64_loop_round(s, i, j + 1, n);
    }
}

pub proof fn lemma_dec_u64_round(s: Seq<char>, i: int, n: u64)
    requires
        matches_at(s, i, dec_spec(n as int)),
        i + dec_spec(n as int).len() >= s.len() || !is_digit(s[i + dec_spec(n as int).len()]),
    ensures
        dec_u64(s, i) == Some((n, i + dec_spec(n as int).len())),
{
    assert(dec_spec(n as int).subrange(0, 0) =~= Seq::<char>::empty());
    lemma_dec_u64_loop_round(s, i, i, n);
}

pub fn parse_u64(s: &str, n: usize, i: usize) -> (r: Option<(u64, usize)>)
    requires
        n == s@.len(),
        i <= n,
    ensures
        r is None ==> dec_u64(s@, i as int) is None,
        r matches Some((v, j)) ==> dec_u64(s@, i as int) == Some((v, j as int)) && i < j <= n,
{
    parse_u64_run(s, n, i, 0, false)
}

fn parse_u64_run(s: &str, n: usize, i: usize, acc: u64, seen: bool) -> (r: Option<(u64, usize)>)
    requires
        n == s@.len(),
        i <= n,
    ensures
        r is None ==> dec_u64_run(s@, i as int, acc, seen) is None,
        r matches Some((v, j)) ==> dec_u64_run(s@, i as int, acc, seen) == Some((v, j as int))
            && i <= j <= n && (seen || i < j),
    decreases n - i,
{
    if i == n {
        if seen {
            return Some((acc, i));
        }
        return None;
    }
    let c = s.get_char(i);
    let cu = c as u32;
    if 48 <= cu && cu <= 57 {
        let d: u64 = (cu - 48) as u64;
        let big: u128 = acc as u128 * 10 + d as u128;
        if big > u64::MAX as u128 {
            None
        } else {
            parse_u64_run(s, n, i + 1, big as u64, true)
        }
    } else {
        if seen {
            Some((acc, i))
        } else {
            None
        }
    }
}

/// A nonnegative value as exactly `w` digits, zero-padded at the left.
pub open spec fn pad_digits(f: int, w: int) -> Seq<char>
    decreases w,
{
    if w <= 0 {
        Seq::<char>::empty()
    } else {
        pad_digits(f / 10, w - 1).push(digit_char(f % 10))
    }
}

pub proof fn lemma_pad_digits(f: int, w: int)
    requires
        0 <= f < pow10(w),
        w >= 0,
    ensures
        pad_digits(f, w).len() == w,
        forall|k: int| 0 <= k < w ==> is_digit(#[trigger] pad_digits(f, w)[k]),
        val_of_digits(pad_digits(f, w)) == f,
    decreases w,
{
    if w == 0 {
    } else {
        assert(pow10(w) == 10 * pow10(w - 1));
        lemma_pad_digits(f / 10, w - 1);
        let d = pad_digits(f / 10, w - 1);
        let c = digit_char(f % 10);
        assert(digit_val(c) == f % 10);
        assert(d.push(c).drop_last() =~= d);
        assert(d.push(c).last() == c);
        assert(val_of_digits(d.push(c)) == val_of_digits(d) * 10 + digit_val(c));
        assert((f / 10) * 10 + f % 10 == f);
    }
}

/// The fractional digits after the point, as nanodegree units: the first
/// nine count, the rest only move the cursor.
pub open spec fn dec_frac_run(s: Seq<char>, i: int, acc: u64, count: int) -> (u64, int)
    decreases s.len() - i,
{
    if i < 0 || i >= s.len() || !is_digit(s[i]) || count < 0 || count > 9 {
        ((acc * pow10(9 - (if count < 0 || count > 9 {
            9
        } else {
            count
        }))) as u64, i)
    } else if count == 9 {
        dec_frac_run(s, i + 1, acc, 9)
    } else {
        dec_frac_run(s, i + 1, (acc * 10 + digit_val(s[i])) as u64, count + 1)
    }
}

proof fn lemma_frac_acc_bound(count: int, acc: u64)
    requires
        0 <= count <= 9,
        acc < pow10(count),
    ensures
        acc * pow10(9 - count) < pow10(9),
        acc * 10 + 9 < pow10(count + 1) || count == 9,
    decreases count,
{
    lemma_pow10_table();
    assert forall|k: int| 0 <= k <= 9 implies pow10(k) >= 1 by {
        lemma_pow10_pos(k);
    }
    lemma_pow10_split(count);
    assert(acc * pow10(9 - count) <= (pow10(count) - 1) * pow10(9 - count)) by (nonlinear_arith)
        requires
            acc < pow10(count),
            pow10(9 - count) >= 1,
    ;
    assert((pow10(count) - 1) * pow10(9 - count) == pow10(count) * pow10(9 - count) - pow10(
        9 - count,
    )) by (nonlinear_arith);
    if count < 9 {
        assert(acc * 10 + 9 < pow10(count + 1)) by (nonlinear_arith)
            requires
                acc < pow10(count),
                pow10(count + 1) == 10 * pow10(count),
        ;
    }
}

fn pow10_exec(n: u64) -> (r: u64)
    requires
        n <= 9,
    ensures
        r as int == pow10(n as int),
{
    proof {
        lemma_pow10_table();
    }
    if n == 0 {
        1
    } else if n == 1 {
        10
    } else if n == 2 {
        100
    } else if n == 3 {
        1000
    } else if n == 4 {
        10000
    } else if n == 5 {
        100000
    } else if n == 6 {
        1000000
    } else if n == 7 {
        10000000
    } else if n == 8 {
        100000000
    } else {
        1000000000
    }
}

pub fn parse_frac_run(s: &str, n: usize, i: usize, acc: u64, count: u64) -> (r: (u64, usize))
    requires
        n == s@.len(),
        i <= n,
        count <= 9,
        acc < pow10(count as int),
    ensures
        dec_frac_run(s@, i as int, acc, count as int) == (r.0, r.1 as int),
        i <= r.1 <= n,
        r.0 < 1000000000,
    decreases n - i,
{
    proof {
        lemma_frac_acc_bound(count as int, acc);
        lemma_pow10_table();
    }
    if i == n {
        let scale = pow10_exec(9 - count);
        return ((acc * scale), i);
    }
    let c = s.get_char(i);
    let cu = c as u32;
    if 48 <= cu && cu <= 57 {
        if count == 9 {
            parse_frac_run(s, n, i + 1, acc, 9)
        } else {
            let d: u64 = (cu - 48) as u64;
            proof {
                lemma_pow10_mono(count as int, 8);
                assert(acc * 10 + d < pow10(count as int + 1));
            }
            parse_frac_run(s, n, i + 1, acc * 10 + d, count + 1)
        }
    } else {
        let scale = pow10_exec(9 - count);
        ((acc * scale), i)
    }
}

/// A coordinate as a fixed-point decimal in nanodegree units: an optional
/// minus sign, integer digits, a point, fractional digits.
pub open spec fn enc_nano(v: i64) -> Seq<char> {
    let a: int = if v >= 0 {
        v as int
    } else {
        -(v as int)
    };
    (if v < 0 {
        seq!['-']
    } else {
        Seq::<char>::empty()
    }) + dec_spec(a / 1000000000) + seq!['.'] + pad_digits(a % 1000000000, 9)
}

pub open spec fn dec_nano(s: Seq<char>, i: int) -> Option<(i64, int)> {
    if i < 0 || i >= s.len() {
        None
    } else {
        let neg = s[i] == '-';
        let i1: int = if neg {
            i + 1
        } else {
            i
        };
        match dec_u64(s, i1) {
            None => None,
            Some((ipart, j)) => {
                if j >= s.len() || s[j] != '.' {
                    None
                } else if j + 1 >= s.len() || !is_digit(s[j + 1]) {
                    None
                } else {
                    let (nanos, j2) = dec_frac_run(s, j + 1, 0, 0);
                    let total = ipart * 1000000000 + nanos;
                    if neg {
                        if total > 9223372036854775808int {
                            None
                        } else {
                            Some(((-total) as i64, j2))
                        }
                    } else {
                        if total > i64::MAX {
                            None
                        } else {
                            Some((total as i64, j2))
                        }
                    }
                }
            },
        }
    }
}

pub fn parse_nano(s: &str, n: usize, i: usize) -> (r: Option<(i64, usize)>)
    requires
        n == s@.len(),
        i <= n,
    ensures
        r is None ==> dec_nano(s@, i as int) is None,
        r matches Some((v, j)) ==> dec_nano(s@, i as int) == Some((v, j as int)) && i < j <= n,
{
    if i == n {
        return None;
    }
    let c = s.get_char(i);
    let neg = c == '-';
    let i1: usize = if neg {
        i + 1
    } else {
        i
    };
    match parse_u64(s, n, i1) {
        None => None,
        Some((ipart, j)) => {
            if j == n || s.get_char(j) != '.' {
                return None;
            }
            if j + 1 == n {
                return None;
            }
            let f0 = s.get_char(j + 1);
            let f0u = f0 as u32;
            if !(48 <= f0u && f0u <= 57) {
                return None;
            }
            let (nanos, j2) = parse_frac_run(s, n, j + 1, 0, 0);
            let total: u128 = ipart as u128 * 1000000000 + nanos as u128;
            if neg {
                if total > 9223372036854775808u128 {
                    None
                } else if total == 9223372036854775808u128 {
                    Some((i64::MIN, j2))
                } else {
                    Some((-(total as i64), j2))
                }
            } else {
                if total > i64::MAX as u128 {
                    None
                } else {
                    Some((total as i64, j2))
                }
            }
        },
    }
}

proof fn lemma_dec_frac_loop_round(s: Seq<char>, i: int, j: int, f: int)
    requires
        0 <= f < 1000000000,
        matches_at(s, i, pad_digits(f, 9)),
        i + 9 >= s.len() || !is_digit(s[i + 9]),
        i <= j <= i + 9,
    ensures
        dec_frac_run(s, j, val_of_digits(pad_digits(f, 9).subrange(0, j - i)) as u64, j - i)
            == ((f as u64, i + 9)),
    decreases i + 9 - j,
{
    let d = pad_digits(f, 9);
    lemma_pow10_table();
    lemma_pad_digits(f, 9);
    lemma_val_prefix_le(d, j - i);
    lemma_val_nonneg(d.subrange(0, j - i));
    let acc = val_of_digits(d.subrange(0, j - i)) as u64;
    if j == i + 9 {
        assert(d.subrange(0, j - i) =~= d);
        assert(acc == f);
        assert(pow10(0) == 1);
    } else {
        assert(s.subrange(i, i + 9)[j - i] == s[j]);
        assert(s[j] == d[j - i]);
        assert(is_digit(s[j]));
        lemma_val_step(d, j - i);
        lemma_val_prefix_le(d, j - i + 1);
        assert(acc * 10 + digit_val(s[j]) == val_of_digits(d.subrange(0, j - i + 1)));
        assert(val_of_digits(d.subrange(0, j - i + 1)) <= f);
        lemma_dec_frac_loop_round(s, i, j + 1, f);
    }
}

proof fn lemma_dec_frac_round(s: Seq<char>, i: int, f: int)
    requires
        0 <= f < 1000000000,
        matches_at(s, i, pad_digits(f, 9)),
        i + 9 >= s.len() || !is_digit(s[i + 9]),
    ensures
        dec_frac_run(s, i, 0, 0) == ((f as u64, i + 9)),
{
    assert(pad_digits(f, 9).subrange(0, 0) =~= Seq::<char>::empty());
    lemma_dec_frac_loop_round(s, i, i, f);
}

pub proof fn lemma_enc_nano_first(v: i64)
    ensures
        enc_nano(v).len() >= 11,
        enc_nano(v)[0] == '-' || is_digit(enc_nano(v)[0]),
        !is_ws(enc_nano(v)[0]),
{
    let a: int = if v >= 0 {
        v as int
    } else {
        -(v as int)
    };
    lemma_dec_spec_digits(a / 1000000000);
    lemma_pow10_table();
    lemma_pad_digits(a % 1000000000, 9);
    if v < 0 {
        assert(enc_nano(v)[0] == '-');
    } else {
        assert(enc_nano(v)[0] == dec_spec(a / 1000000000)[0]);
    }
}

pub proof fn lemma_dec_nano_round(s: Seq<char>, i: int, v: i64)
    requires
        matches_at(s, i, enc_nano(v)),
        i + enc_nano(v).len() >= s.len() || !is_digit(s[i + enc_nano(v).len()]),
    ensures
        dec_nano(s, i) == Some((v, i + enc_nano(v).len())),
{
    let a: int = if v >= 0 {
        v as int
    } else {
        -(v as int)
    };
    let hi = a / 1000000000;
    let lo = a % 1000000000;
    let sign: Seq<char> = if v < 0 {
        seq!['-']
    } else {
        Seq::<char>::empty()
    };
    lemma_dec_spec_digits(hi);
    lemma_pow10_table();
    lemma_pad_digits(lo, 9);
    assert(enc_nano(v) =~= sign + (dec_spec(hi) + (seq!['.'] + pad_digits(lo, 9))));
    lemma_matches_concat(s, i, sign, dec_spec(hi) + (seq!['.'] + pad_digits(lo, 9)));
    let p0 = i + sign.len();
    lemma_matches_concat(s, p0, dec_spec(hi), seq!['.'] + pad_digits(lo, 9));
    let p1 = p0 + dec_spec(hi).len();
    lemma_matches_concat(s, p1, seq!['.'], pad_digits(lo, 9));
    if v < 0 {
        assert(s.subrange(i, i + 1)[0] == s[i]);
        assert(s[i] == '-');
    } else {
        assert(s.subrange(i, i + dec_spec(hi).len())[0] == s[i]);
        assert(s[i] == dec_spec(hi)[0]);
        assert(is_digit(s[i]));
        assert(s[i] != '-');
    }
    assert(hi <= 9223372036854775808int / 1000000000);
    let hiu = hi as u64;
    assert(hiu as int == hi);
    assert(s.subrange(p1, p1 + 1)[0] == s[p1]);
    assert(s[p1] == '.');
    assert(!is_digit('.'));
    lemma_dec_u64_round(s, p0, hiu);
    assert(s.subrange(p1 + 1, p1 + 1 + 9)[0] == s[p1 + 1]);
    assert(s[p1 + 1] == pad_digits(lo, 9)[0]);
    assert(is_digit(s[p1 + 1]));
    lemma_dec_frac_round(s, p1 + 1, lo);
    assert(hi * 1000000000 + lo == a);
    if v < 0 {
        assert(a <= 9223372036854775808int);
        assert((-a) as i64 == v);
    } else {
        assert(a <= i64::MAX);
        assert(a as i64 == v);
    }
}

/// How one character is written inside a JSON string: itself, or its
/// escape.
pub open spec fn esc_char(c: char) -> Seq<char> {
    if c == '"' {
        seq!['\\', '"']
    } else if c == '\\' {
        seq!['\\', '\\']
    } else if 0 <= (c as int) && (c as int) < 32 {
        seq!['\\', 'u', '0', '0', hex_char(c as int / 16), hex_char(c as int % 16)]
    } else {
        seq![c]
    }
}

pub open spec fn enc_chars(v: Seq<char>) -> Seq<char>
    decreases v.len(),
{
    if v.len() == 0 {
        Seq::<char>::empty()
    } else {
        esc_char(v[0]) + enc_chars(v.skip(1))
    }
}

/// A JSON string literal: quoted, with the mandatory escapes.
pub open spec fn enc_str(v: Seq<char>) -> Seq<char> {
    seq!['"'] + enc_chars(v) + seq!['"']
}

/// Decode the body of a JSON string literal, one character or escape per
/// step, mirrored exactly by the executable parser.
pub open spec fn dec_str_chars(s: Seq<char>, i: int, acc: Seq<char>) -> Option<(Seq<char>, int)>
    decreases s.len() - i,
{
    if i < 0 || i >= s.len() {
        None
    } else if s[i] == '"' {
        Some((acc, i + 1))
    } else if s[i] == '\\' {
        if i + 1 >= s.len() {
            None
        } else if s[i + 1] == '"' {
            dec_str_chars(s, i + 2, acc.push('"'))
        } else if s[i + 1] == '\\' {
            dec_str_chars(s, i + 2, acc.push('\\'))
        } else if s[i + 1] == 'u' {
            if i + 6 > s.len() {
                None
            } else if hex_val(s[i + 2]) >= 16 || hex_val(s[i + 3]) >= 16 || hex_val(s[i + 4])
                >= 16 || hex_val(s[i + 5]) >= 16 {
                None
            } else if !(s[i + 2] == '0' && s[i + 3] == '0') {
                None
            } else {
                dec_str_chars(
                    s,
                    i + 6,
                    acc.push(byte_char(hex_val(s[i + 4]) * 16 + hex_val(s[i + 5]))),
                )
            }
        } else {
            None
        }
    } else {
        dec_str_chars(s, i + 1, acc.push(s[i]))
    }
}

pub open spec fn dec_str(s: Seq<char>, i: int) -> Option<(Seq<char>, int)> {
    if i < 0 || i >= s.len() || s[i] != '"' {
        None
    } else {
        dec_str_chars(s, i + 1, Seq::<char>::empty())
    }
}

proof fn lemma_hex_char_val(d: int)
    requires
        0 <= d < 16,
    ensures
        hex_val(hex_char(d)) == d,
{
    if d == 0 {
        assert(hex_val(hex_char(0)) == 0);
    } else if d == 1 {
        assert(hex_val(hex_char(1)) == 1);
    } else if d == 2 {
        assert(hex_val(hex_char(2)) == 2);
    } else if d == 3 {
        assert(hex_val(hex_char(3)) == 3);
    } else if d == 4 {
        assert(hex_val(hex_char(4)) == 4);
    } else if d == 5 {
        assert(hex_val(hex_char(5)) == 5);
    } else if d == 6 {
        assert(hex_val(hex_char(6)) == 6);
    } else if d == 7 {
        assert(hex_val(hex_char(7)) == 7);
    } else if d == 8 {
        assert(hex_val(hex_char(8)) == 8);
    } else if d == 9 {
        assert(hex_val(hex_char(9)) == 9);
    } else if d == 10 {
        assert(hex_val(hex_char(10)) == 10);
    } else if d == 11 {
        assert(hex_val(hex_char(11)) == 11);
    } else if d == 12 {
        assert(hex_val(hex_char(12)) == 12);
    } else if d == 13 {
        assert(hex_val(hex_char(13)) == 13);
    } else if d == 14 {
        assert(hex_val(hex_char(14)) == 14);
    } else {
        assert(hex_val(hex_char(15)) == 15);
    }
}

proof fn lemma_dec_str_chars_round(s: Seq<char>, i: int, v: Seq<char>, acc: Seq<char>)
    requires
        matches_at(s, i, enc_chars(v) + seq!['"']),
    ensures
        dec_str_chars(s, i, acc) == Some((acc + v, i + enc_chars(v).len() + 1)),
    decreases v.len(),
{
    if v.len() == 0 {
        assert(s.subrange(i, i + 1)[0] == s[i]);
        assert(s[i] == '"');
        assert(acc + v =~= acc);
    } else {
        let c = v[0];
        let rest = v.skip(1);
        assert(enc_chars(v) == esc_char(c) + enc_chars(rest));
        assert((esc_char(c) + enc_chars(rest)) + seq!['"'] =~= esc_char(c) + (enc_chars(rest)
            + seq!['"']));
        lemma_matches_concat(s, i, esc_char(c), enc_chars(rest) + seq!['"']);
        let e = esc_char(c);
        let p = i + e.len();
        assert(s.subrange(i, i + e.len()) == e);
        if c == '"' {
            assert(s.subrange(i, i + 2)[0] == s[i] && s.subrange(i, i + 2)[1] == s[i + 1]);
            assert(s[i] == '\\' && s[i + 1] == '"');
            lemma_dec_str_chars_round(s, i + 2, rest, acc.push(c));
            assert(acc.push(c) + rest =~= acc + v);
        } else if c == '\\' {
            assert(s.subrange(i, i + 2)[0] == s[i] && s.subrange(i, i + 2)[1] == s[i + 1]);
            assert(s[i] == '\\' && s[i + 1] == '\\');
            lemma_dec_str_chars_round(s, i + 2, rest, acc.push(c));
            assert(acc.push(c) + rest =~= acc + v);
        } else if 0 <= (c as int) && (c as int) < 32 {
            let cv = c as int;
            let h1 = hex_char(cv / 16);
            let h2 = hex_char(cv % 16);
            assert forall|w: int| 0 <= w < 6 implies s[i + w] == e[w] by {
                assert(s.subrange(i, i + 6)[w] == e[w]);
            }
            assert(s[i] == '\\' && s[i + 1] == 'u' && s[i + 2] == '0' && s[i + 3] == '0');
            assert(s[i + 4] == h1 && s[i + 5] == h2);
            lemma_hex_char_val(cv / 16);
            lemma_hex_char_val(cv % 16);
            assert(hex_val(h1) == cv / 16 && hex_val(h2) == cv % 16);
            assert(hex_val(s[i + 2]) == 0 && hex_val(s[i + 3]) == 0);
            assert((cv / 16) * 16 + cv % 16 == cv);
            let back = byte_char(cv);
            assert(back as int == cv);
            assert(c as int == cv);
            assert(back == c);
            lemma_dec_str_chars_round(s, i + 6, rest, acc.push(c));
            assert(acc.push(c) + rest =~= acc + v);
        } else {
            assert(s.subrange(i, i + 1)[0] == s[i]);
            assert(s[i] == c);
            lemma_dec_str_chars_round(s, i + 1, rest, acc.push(c));
            assert(acc.push(c) + rest =~= acc + v);
        }
    }
}

pub proof fn lemma_dec_str_round(s: Seq<char>, i: int, v: Seq<char>)
    requires
        matches_at(s, i, enc_str(v)),
    ensures
        dec_str(s, i) == Some((v, i + enc_str(v).len())),
{
    assert(enc_str(v) =~= seq!['"'] + (enc_chars(v) + seq!['"']));
    lemma_matches_concat(s, i, seq!['"'], enc_chars(v) + seq!['"']);
    assert(s.subrange(i, i + 1)[0] == s[i]);
    assert(s[i] == '"');
    lemma_dec_str_chars_round(s, i + 1, v, Seq::<char>::empty());
    assert(Seq::<char>::empty() + v =~= v);
}

fn hex_str(d: u64) -> (r: &'static str)
    requires
        d < 16,
    ensures
        r@ == seq![hex_char(d as int)],
{
    if d < 10 {
        digit_str(d)
    } else if d == 10 {
        proof {
            reveal_strlit("a");
            assert("a"@ =~= seq![hex_char(10)]);
        }
        "a"
    } else if d == 11 {
        proof {
            reveal_strlit("b");
            assert("b"@ =~= seq![hex_char(11)]);
        }
        "b"
    } else if d == 12 {
        proof {
            reveal_strlit("c");
            assert("c"@ =~= seq![hex_char(12)]);
        }
        "c"
    } else if d == 13 {
        proof {
            reveal_strlit("d");
            assert("d"@ =~= seq![hex_char(13)]);
        }
        "d"
    } else if d == 14 {
        proof {
            reveal_strlit("e");
            assert("e"@ =~= seq![hex_char(14)]);
        }
        "e"
    } else {
        proof {
            reveal_strlit("f");
            assert("f"@ =~= seq![hex_char(15)]);
        }
        "f"
    }
}

fn parse_str_chars(s: &str, n: usize, i: usize, acc: String) -> (r: Option<(String, usize)>)
    requires
        n == s@.len(),
        i <= n,
    ensures
        r is None ==> dec_str_chars(s@, i as int, acc@) is None,
        r matches Some((v, j)) ==> dec_str_chars(s@, i as int, acc@) == Some((v@, j as int)) && i
            < j <= n,
    decreases n - i,
{
    if i == n {
        return None;
    }
    let c = s.get_char(i);
    if c == '"' {
        return Some((acc, i + 1));
    }
    if c == '\\' {
        if i + 1 == n {
            return None;
        }
        let e = s.get_char(i + 1);
        if e == '"' {
            let mut acc = acc;
            acc.push('"');
            parse_str_chars(s, n, i + 2, acc)
        } else if e == '\\' {
            let mut acc = acc;
            acc.push('\\');
            parse_str_chars(s, n, i + 2, acc)
        } else if e == 'u' {
            if n - i < 6 {
                return None;
            }
            let h0 = s.get_char(i + 2);
            let h1 = s.get_char(i + 3);
            let h2 = s.get_char(i + 4);
            let h3 = s.get_char(i + 5);
            if hex_digit(h0) >= 16 || hex_digit(h1) >= 16 || hex_digit(h2) >= 16 || hex_digit(h3)
                >= 16 {
                return None;
            }
            if !(h0 == '0' && h1 == '0') {
                return None;
            }
            let vcode: u8 = hex_digit(h2) * 16 + hex_digit(h3);
            let mut acc = acc;
            proof {
                assert((vcode as char) == byte_char(vcode as int));
            }
            acc.push(vcode as char);
            parse_str_chars(s, n, i + 6, acc)
        } else {
            None
        }
    } else {
        let mut acc = acc;
        acc.push(c);
        parse_str_chars(s, n, i + 1, acc)
    }
}

pub fn parse_string(s: &str, n: usize, i: usize) -> (r: Option<(String, usize)>)
    requires
        n == s@.len(),
        i <= n,
    ensures
        r is None ==> dec_str(s@, i as int) is None,
        r matches Some((v, j)) ==> dec_str(s@, i as int) == Some((v@, j as int)) && i < j <= n,
{
    if i == n {
        return None;
    }
    if s.get_char(i) != '"' {
        return None;
    }
    parse_str_chars(s, n, i + 1, String::new())
}

pub open spec fn enc_opt_str(o: Option<Seq<char>>) -> Seq<char> {
    match o {
        None => "null"@,
        Some(v) => enc_str(v),
    }
}

pub open spec fn dec_opt_str(s: Seq<char>, i: int) -> Option<(Option<Seq<char>>, int)> {
    if i < 0 || i >= s.len() {
        None
    } else if s[i] == 'n' {
        if matches_at(s, i, "null"@) {
            Some((None, i + "null"@.len()))
        } else {
            None
        }
    } else {
        match dec_str(s, i) {
            None => None,
            Some((v, j)) => Some((Some(v), j)),
        }
    }
}

pub proof fn lemma_enc_opt_str_first(o: Option<Seq<char>>)
    ensures
        enc_opt_str(o).len() >= 1,
        !is_ws(enc_opt_str(o)[0]),
{
    reveal_strlit("null");
    match o {
        None => {
            assert(enc_opt_str(o)[0] == 'n');
        },
        Some(v) => {
            assert(enc_opt_str(o)[0] == '"');
        },
    }
}

pub proof fn lemma_dec_opt_str_round(s: Seq<char>, i: int, o: Option<Seq<char>>)
    requires
        matches_at(s, i, enc_opt_str(o)),
    ensures
        dec_opt_str(s, i) == Some((o, i + enc_opt_str(o).len())),
{
    reveal_strlit("null");
    match o {
        None => {
            assert(s.subrange(i, i + 4)[0] == s[i]);
            assert(s[i] == 'n');
        },
        Some(v) => {
            assert(s.subrange(i, i + enc_str(v).len())[0] == s[i]);
            assert(s[i] == '"');
            assert(s[i] != 'n');
            lemma_dec_str_round(s, i, v);
        },
    }
}

pub fn parse_opt_string(s: &str, n: usize, i: usize) -> (r: Option<(Option<String>, usize)>)
    requires
        n == s@.len(),
        i <= n,
    ensures
        r is None ==> dec_opt_str(s@, i as int) is None,
        r matches Some((v, j)) ==> dec_opt_str(s@, i as int) == Some(
            (opt_string_view(&v), j as int),
        ) && i < j <= n,
{
    if i == n {
        return None;
    }
    let c = s.get_char(i);
    if c == 'n' {
        match eat_lit(s, n, i, "null") {
            Some(j) => {
                proof {
                    reveal_strlit("null");
                }
                Some((None, j))
            },
            None => None,
        }
    } else {
        match parse_string(s, n, i) {
            None => None,
            Some((v, j)) => Some((Some(v), j)),
        }
    }
}

pub open spec fn enc_bool(b: bool) -> Seq<char> {
    if b {
        "true"@
    } else {
        "false"@
    }
}

pub open spec fn dec_bool(s: Seq<char>, i: int) -> Option<(bool, int)> {
    if i < 0 || i >= s.len() {
        None
    } else if s[i] == 't' {
        if matches_at(s, i, "true"@) {
            Some((true, i + "true"@.len()))
        } else {
            None
        }
    } else if s[i] == 'f' {
        if matches_at(s, i, "false"@) {
            Some((false, i + "false"@.len()))
        } else {
            None
        }
    } else {
        None
    }
}

pub proof fn lemma_enc_bool_first(b: bool)
    ensures
        enc_bool(b).len() >= 1,
        !is_ws(enc_bool(b)[0]),
{
    reveal_strlit("true");
    reveal_strlit("false");
    if b {
        assert(enc_bool(b)[0] == 't');
    } else {
        assert(enc_bool(b)[0] == 'f');
    }
}

pub proof fn lemma_dec_bool_round(s: Seq<char>, i: int, b: bool)
    requires
        matches_at(s, i, enc_bool(b)),
    ensures
        dec_bool(s, i) == Some((b, i + enc_bool(b).len())),
{
    reveal_strlit("true");
    reveal_strlit("false");
    if b {
        assert(s.subrange(i, i + 4)[0] == s[i]);
        assert(s[i] == 't');
    } else {
        assert(s.subrange(i, i + 5)[0] == s[i]);
        assert(s[i] == 'f');
        assert(s[i] != 't');
    }
}

pub fn parse_bool(s: &str, n: usize, i: usize) -> (r: Option<(bool, usize)>)
    requires
        n == s@.len(),
        i <= n,
    ensures
        r is None ==> dec_bool(s@, i as int) is None,
        r matches Some((v, j)) ==> dec_bool(s@, i as int) == Some((v, j as int)) && i < j <= n,
{
    if i == n {
        return None;
    }
    let c = s.get_char(i);
    proof {
        reveal_strlit("true");
        reveal_strlit("false");
    }
    if c == 't' {
        match eat_lit(s, n, i, "true") {
            Some(j) => Some((true, j)),
            None => None,
        }
    } else if c == 'f' {
        match eat_lit(s, n, i, "false") {
            Some(j) => Some((false, j)),
            None => None,
        }
    } else {
        None
    }
}

/// A position as a two-element array, latitude first.
pub open spec fn enc_pos(p: GeoPos) -> Seq<char> {
    seq!['['] + (enc_nano(p.lat_nanodeg) + (seq![','] + (enc_nano(p.lon_nanodeg) + seq![']'])))
}

pub open spec fn dec_pos(s: Seq<char>, i: int) -> Option<(GeoPos, int)> {
    if i < 0 || i >= s.len() || s[i] != '[' {
        None
    } else {
        let j1 = skip_ws(s, i + 1);
        match dec_nano(s, j1) {
            None => None,
            Some((lat, j2)) => {
                let j3 = skip_ws(s, j2);
                if j3 >= s.len() || s[j3] != ',' {
                    None
                } else {
                    let j4 = skip_ws(s, j3 + 1);
                    match dec_nano(s, j4) {
                        None => None,
                        Some((lon, j5)) => {
                            let j6 = skip_ws(s, j5);
                            if j6 >= s.len() || s[j6] != ']' {
                                None
                            } else {
                                Some((GeoPos { lat_nanodeg: lat, lon_nanodeg: lon }, j6 + 1))
                            }
                        },
                    }
                }
            },
        }
    }
}

pub proof fn lemma_dec_pos_round(s: Seq<char>, i: int, p: GeoPos)
    requires
        matches_at(s, i, enc_pos(p)),
    ensures
        dec_pos(s, i) == Some((p, i + enc_pos(p).len())),
{
    let ea = enc_nano(p.lat_nanodeg);
    let eb = enc_nano(p.lon_nanodeg);
    lemma_matches_concat(s, i, seq!['['], ea + (seq![','] + (eb + seq![']'])));
    assert(s.subrange(i, i + 1)[0] == s[i]);
    assert(s[i] == '[');
    let p1 = i + 1;
    lemma_matches_concat(s, p1, ea, seq![','] + (eb + seq![']']));
    lemma_enc_nano_first(p.lat_nanodeg);
    assert(s.subrange(p1, p1 + ea.len())[0] == s[p1]);
    assert(!is_ws(s[p1]));
    assert(skip_ws(s, p1) == p1);
    let p2 = p1 + ea.len();
    lemma_matches_concat(s, p2, seq![','], eb + seq![']']);
    assert(s.subrange(p2, p2 + 1)[0] == s[p2]);
    assert(s[p2] == ',');
    assert(!is_digit(','));
    lemma_dec_nano_round(s, p1, p.lat_nanodeg);
    assert(skip_ws(s, p2) == p2);
    let p3 = p2 + 1;
    lemma_matches_concat(s, p3, eb, seq![']']);
    lemma_enc_nano_first(p.lon_nanodeg);
    assert(s.subrange(p3, p3 + eb.len())[0] == s[p3]);
    assert(!is_ws(s[p3]));
    assert(skip_ws(s, p3) == p3);
    let p4 = p3 + eb.len();
    assert(s.subrange(p4, p4 + 1)[0] == s[p4]);
    assert(s[p4] == ']');
    assert(!is_digit(']'));
    lemma_dec_nano_round(s, p3, p.lon_nanodeg);
    assert(skip_ws(s, p4) == p4);
}

pub fn parse_pos(s: &str, n: usize, i: usize) -> (r: Option<(GeoPos, usize)>)
    requires
        n == s@.len(),
        i <= n,
    ensures
        r is None ==> dec_pos(s@, i as int) is None,
        r matches Some((v, j)) ==> dec_pos(s@, i as int) == Some((v, j as int)) && i < j <= n,
{
    if i == n || s.get_char(i) != '[' {
        return None;
    }
    let j1 = eat_ws(s, n, i + 1);
    match parse_nano(s, n, j1) {
        None => None,
        Some((lat, j2)) => {
            let j3 = eat_ws(s, n, j2);
            if j3 == n || s.get_char(j3) != ',' {
                return None;
            }
            let j4 = eat_ws(s, n, j3 + 1);
            match parse_nano(s, n, j4) {
                None => None,
                Some((lon, j5)) => {
                    let j6 = eat_ws(s, n, j5);
                    if j6 == n || s.get_char(j6) != ']' {
                        return None;
                    }
                    Some((GeoPos { lat_nanodeg: lat, lon_nanodeg: lon }, j6 + 1))
                },
            }
        },
    }
}

pub open spec fn enc_opt_pos(o: Option<GeoPos>) -> Seq<char> {
    match o {
        None => "null"@,
        Some(p) => enc_pos(p),
    }
}

pub open spec fn dec_opt_pos(s: Seq<char>, i: int) -> Option<(Option<GeoPos>, int)> {
    if i < 0 || i >= s.len() {
        None
    } else if s[i] == 'n' {
        if matches_at(s, i, "null"@) {
            Some((None, i + "null"@.len()))
        } else {
            None
        }
    } else {
        match dec_pos(s, i) {
            None => None,
            Some((p, j)) => Some((Some(p), j)),
        }
    }
}

pub proof fn lemma_enc_opt_pos_first(o: Option<GeoPos>)
    ensures
        enc_opt_pos(o).len() >= 1,
        !is_ws(enc_opt_pos(o)[0]),
{
    reveal_strlit("null");
    match o {
        None => {
            assert(enc_opt_pos(o)[0] == 'n');
        },
        Some(p) => {
            assert(enc_opt_pos(o)[0] == '[');
        },
    }
}

pub proof fn lemma_dec_opt_pos_round(s: Seq<char>, i: int, o: Option<GeoPos>)
    requires
        matches_at(s, i, enc_opt_pos(o)),
    ensures
        dec_opt_pos(s, i) == Some((o, i + enc_opt_pos(o).len())),
{
    reveal_strlit("null");
    match o {
        None => {
            assert(s.subrange(i, i + 4)[0] == s[i]);
            assert(s[i] == 'n');
        },
        Some(p) => {
            assert(s.subrange(i, i + enc_pos(p).len())[0] == s[i]);
            assert(s[i] == '[');
            assert(s[i] != 'n');
            lemma_dec_pos_round(s, i, p);
        },
    }
}

pub fn parse_opt_pos(s: &str, n: usize, i: usize) -> (r: Option<(Option<GeoPos>, usize)>)
    requires
        n == s@.len(),
        i <= n,
    ensures
        r is None ==> dec_opt_pos(s@, i as int) is None,
        r matches Some((v, j)) ==> dec_opt_pos(s@, i as int) == Some((v, j as int)) && i < j
            <= n,
{
    if i == n {
        return None;
    }
    let c = s.get_char(i);
    if c == 'n' {
        match eat_lit(s, n, i, "null") {
            Some(j) => {
                proof {
                    reveal_strlit("null");
                }
                Some((None, j))
            },
            None => None,
        }
    } else {
        match parse_pos(s, n, i) {
            None => None,
            Some((p, j)) => Some((Some(p), j)),
        }
    }
}

/// One object field as written: a lead character (the object opener or a
/// comma), the quoted key, a colon, the value.
pub open spec fn enc_field(lead: char, key: Seq<char>, val: Seq<char>) -> Seq<char> {
    seq![lead] + (key + (seq![':'] + val))
}

/// Where the pieces of a written field stand, and that no whitespace
/// separates them.
proof fn lemma_field_split(s: Seq<char>, i: int, lead: char, key: Seq<char>, val: Seq<char>)
    requires
        matches_at(s, i, enc_field(lead, key, val)),
        key.len() >= 1,
        !is_ws(key[0]),
        val.len() >= 1,
        !is_ws(val[0]),
    ensures
        s[i] == lead,
        skip_ws(s, i + 1) == i + 1,
        matches_at(s, i + 1, key),
        s[i + 1 + key.len()] == ':',
        skip_ws(s, i + 1 + key.len()) == i + 1 + key.len(),
        skip_ws(s, i + 2 + key.len()) == i + 2 + key.len(),
        matches_at(s, i + 2 + key.len(), val),
{
    lemma_matches_concat(s, i, seq![lead], key + (seq![':'] + val));
    assert(s.subrange(i, i + 1)[0] == s[i]);
    let p1 = i + 1;
    lemma_matches_concat(s, p1, key, seq![':'] + val);
    assert(s.subrange(p1, p1 + key.len())[0] == s[p1]);
    assert(!is_ws(s[p1]));
    let p2 = p1 + key.len();
    lemma_matches_concat(s, p2, seq![':'], val);
    assert(s.subrange(p2, p2 + 1)[0] == s[p2]);
    assert(s[p2] == ':');
    assert(!is_ws(':'));
    let p3 = p2 + 1;
    assert(s.subrange(p3, p3 + val.len())[0] == s[p3]);
    assert(!is_ws(s[p3]));
}

pub proof fn lemma_enc_str_first(v: Seq<char>)
    ensures
        enc_str(v).len() >= 2,
        enc_str(v)[0] == '"',
        !is_ws(enc_str(v)[0]),
{
}

/// An image source as an object: address first, then the credit fields.
pub open spec fn enc_img(v: ImageSourceView) -> Seq<char> {
    enc_field('{', "\"url\""@, enc_str(v.url)) + (enc_field(
        ',',
        "\"credit_url\""@,
        enc_opt_str(v.credit_url),
    ) + (enc_field(',', "\"credit_text\""@, enc_opt_str(v.credit_text)) + seq!['}']))
}

pub open spec fn dec_img(s: Seq<char>, i: int) -> Option<(ImageSourceView, int)> {
    if i < 0 || i >= s.len() || s[i] != '{' {
        None
    } else {
        let j1 = skip_ws(s, i + 1);
        if !matches_at(s, j1, "\"url\""@) {
            None
        } else {
            let j2 = skip_ws(s, j1 + "\"url\""@.len());
            if j2 >= s.len() || s[j2] != ':' {
                None
            } else {
                match dec_str(s, skip_ws(s, j2 + 1)) {
                    None => None,
                    Some((url, j3)) => {
                        let j4 = skip_ws(s, j3);
                        if j4 >= s.len() || s[j4] != ',' {
                            None
                        } else {
                            let j5 = skip_ws(s, j4 + 1);
                            if !matches_at(s, j5, "\"credit_url\""@) {
                                None
                            } else {
                                let j6 = skip_ws(s, j5 + "\"credit_url\""@.len());
                                if j6 >= s.len() || s[j6] != ':' {
                                    None
                                } else {
                                    match dec_opt_str(s, skip_ws(s, j6 + 1)) {
                                        None => None,
                                        Some((cu, j7)) => {
                                            let j8 = skip_ws(s, j7);
                                            if j8 >= s.len() || s[j8] != ',' {
                                                None
                                            } else {
                                                let j9 = skip_ws(s, j8 + 1);
                                                if !matches_at(s, j9, "\"credit_text\""@) {
                                                    None
                                                } else {
                                                    let j10 = skip_ws(
                                                        s,
                                                        j9 + "\"credit_text\""@.len(),
                                                    );
                                                    if j10 >= s.len() || s[j10] != ':' {
                                                        None
                                                    } else {
                                                        match dec_opt_str(
                                                            s,
                                                            skip_ws(s, j10 + 1),
                                                        ) {
                                                            None => None,
                                                            Some((ct, j11)) => {
                                                                let j12 = skip_ws(s, j11);
                                                                if j12 >= s.len() || s[j12]
                                                                    != '}' {
                                                                    None
                                                                } else {
                                                                    Some(
                                                                        (
                                                                            ImageSourceView {
                                                                                url: url,
                                                                                credit_url: cu,
                                                                                credit_text: ct,
                                                                            },
                                                                            j12 + 1,
                                                                        ),
                                                                    )
                                                                }
                                                            },
                                                        }
                                                    }
                                                }
                                            }
                                        },
                                    }
                                }
                            }
                        }
                    },
                }
            }
        }
    }
}

pub proof fn lemma_dec_img_round(s: Seq<char>, i: int, v: ImageSourceView)
    requires
        matches_at(s, i, enc_img(v)),
    ensures
        dec_img(s, i) == Some((v, i + enc_img(v).len())),
{
    reveal_strlit("\"url\"");
    reveal_strlit("\"credit_url\"");
    reveal_strlit("\"credit_text\"");
    let f1 = enc_field('{', "\"url\""@, enc_str(v.url));
    let f2 = enc_field(',', "\"credit_url\""@, enc_opt_str(v.credit_url));
    let f3 = enc_field(',', "\"credit_text\""@, enc_opt_str(v.credit_text));
    lemma_matches_concat(s, i, f1, f2 + (f3 + seq!['}']));
    lemma_matches_concat(s, i + f1.len(), f2, f3 + seq!['}']);
    lemma_matches_concat(s, i + f1.len() + f2.len(), f3, seq!['}']);
    lemma_enc_str_first(v.url);
    lemma_enc_opt_str_first(v.credit_url);
    lemma_enc_opt_str_first(v.credit_text);
    assert("\"url\""@[0] == '"');
    assert("\"credit_url\""@[0] == '"');
    assert("\"credit_text\""@[0] == '"');
    lemma_field_split(s, i, '{', "\"url\""@, enc_str(v.url));
    lemma_field_split(s, i + f1.len(), ',', "\"credit_url\""@, enc_opt_str(v.credit_url));
    lemma_field_split(
        s,
        i + f1.len() + f2.len(),
        ',',
        "\"credit_text\""@,
        enc_opt_str(v.credit_text),
    );
    lemma_dec_str_round(s, i + 2 + "\"url\""@.len(), v.url);
    lemma_dec_opt_str_round(
        s,
        i + f1.len() + 2 + "\"credit_url\""@.len(),
        v.credit_url,
    );
    lemma_dec_opt_str_round(
        s,
        i + f1.len() + f2.len() + 2 + "\"credit_text\""@.len(),
        v.credit_text,
    );
    let e1 = i + f1.len();
    assert(skip_ws(s, e1) == e1);
    let e2 = e1 + f2.len();
    assert(skip_ws(s, e2) == e2);
    let e3 = e2 + f3.len();
    assert(s.subrange(e3, e3 + 1)[0] == s[e3]);
    assert(s[e3] == '}');
    assert(skip_ws(s, e3) == e3);
}

pub fn parse_image(s: &str, n: usize, i: usize) -> (r: Option<(MapEntryImageSource, usize)>)
    requires
        n == s@.len(),
        i <= n,
    ensures
        r is None ==> dec_img(s@, i as int) is None,
        r matches Some((v, j)) ==> dec_img(s@, i as int) == Some((v@, j as int)) && i < j <= n,
{
    if i == n || s.get_char(i) != '{' {
        return None;
    }
    let j1 = eat_ws(s, n, i + 1);
    let j1b = match eat_lit(s, n, j1, "\"url\"") {
        Some(j) => j,
        None => {
            return None;
        },
    };
    let j2 = eat_ws(s, n, j1b);
    if j2 == n || s.get_char(j2) != ':' {
        return None;
    }
    let j2b = eat_ws(s, n, j2 + 1);
    let (url, j3) = match parse_string(s, n, j2b) {
        Some(x) => x,
        None => {
            return None;
        },
    };
    let j4 = eat_ws(s, n, j3);
    if j4 == n || s.get_char(j4) != ',' {
        return None;
    }
    let j5 = eat_ws(s, n, j4 + 1);
    let j5b = match eat_lit(s, n, j5, "\"credit_url\"") {
        Some(j) => j,
        None => {
            return None;
        },
    };
    let j6 = eat_ws(s, n, j5b);
    if j6 == n || s.get_char(j6) != ':' {
        return None;
    }
    let j6b = eat_ws(s, n, j6 + 1);
    let (cu, j7) = match parse_opt_string(s, n, j6b) {
        Some(x) => x,
        None => {
            return None;
        },
    };
    let j8 = eat_ws(s, n, j7);
    if j8 == n || s.get_char(j8) != ',' {
        return None;
    }
    let j9 = eat_ws(s, n, j8 + 1);
    let j9b = match eat_lit(s, n, j9, "\"credit_text\"") {
        Some(j) => j,
        None => {
            return None;
        },
    };
    let j10 = eat_ws(s, n, j9b);
    if j10 == n || s.get_char(j10) != ':' {
        return None;
    }
    let j10b = eat_ws(s, n, j10 + 1);
    let (ct, j11) = match parse_opt_string(s, n, j10b) {
        Some(x) => x,
        None => {
            return None;
        },
    };
    let j12 = eat_ws(s, n, j11);
    if j12 == n || s.get_char(j12) != '}' {
        return None;
    }
    Some((MapEntryImageSource { url: url, credit_url: cu, credit_text: ct }, j12 + 1))
}

pub open spec fn enc_opt_img(o: Option<ImageSourceView>) -> Seq<char> {
    match o {
        None => "null"@,
        Some(v) => enc_img(v),
    }
}

pub open spec fn dec_opt_img(s: Seq<char>, i: int) -> Option<(Option<ImageSourceView>, int)> {
    if i < 0 || i >= s.len() {
        None
    } else if s[i] == 'n' {
        if matches_at(s, i, "null"@) {
            Some((None, i + "null"@.len()))
        } else {
            None
        }
    } else {
        match dec_img(s, i) {
            None => None,
            Some((v, j)) => Some((Some(v), j)),
        }
    }
}

pub proof fn lemma_enc_opt_img_first(o: Option<ImageSourceView>)
    ensures
        enc_opt_img(o).len() >= 1,
        !is_ws(enc_opt_img(o)[0]),
{
    reveal_strlit("null");
    match o {
        None => {
            assert(enc_opt_img(o)[0] == 'n');
        },
        Some(v) => {
            assert(enc_opt_img(o)[0] == '{');
        },
    }
}

pub proof fn lemma_dec_opt_img_round(s: Seq<char>, i: int, o: Option<ImageSourceView>)
    requires
        matches_at(s, i, enc_opt_img(o)),
    ensures
        dec_opt_img(s, i) == Some((o, i + enc_opt_img(o).len())),
{
    reveal_strlit("null");
    match o {
        None => {
            assert(s.subrange(i, i + 4)[0] == s[i]);
            assert(s[i] == 'n');
        },
        Some(v) => {
            assert(s.subrange(i, i + enc_img(v).len())[0] == s[i]);
            assert(s[i] == '{');
            assert(s[i] != 'n');
            lemma_dec_img_round(s, i, v);
        },
    }
}

pub open spec fn opt_image_view(o: &Option<MapEntryImageSource>) -> Option<ImageSourceView> {
    match o {
        Some(v) => Some(v@),
        None => None,
    }
}

pub fn parse_opt_image(s: &str, n: usize, i: usize) -> (r: Option<
    (Option<MapEntryImageSource>, usize),
>)
    requires
        n == s@.len(),
        i <= n,
    ensures
        r is None ==> dec_opt_img(s@, i as int) is None,
        r matches Some((v, j)) ==> dec_opt_img(s@, i as int) == Some(
            (opt_image_view(&v), j as int),
        ) && i < j <= n,
{
    if i == n {
        return None;
    }
    let c = s.get_char(i);
    if c == 'n' {
        match eat_lit(s, n, i, "null") {
            Some(j) => {
                proof {
                    reveal_strlit("null");
                }
                Some((None, j))
            },
            None => None,
        }
    } else {
        match parse_image(s, n, i) {
            None => None,
            Some((v, j)) => Some((Some(v), j)),
        }
    }
}

/// An identity as the original's tagged object: which system, then its
/// identifier.
pub open spec fn enc_eid(e: ElementIdView) -> Seq<char> {
    match e {
        ElementIdView::Osm(id) => enc_field('{', "\"Osm\""@, dec_spec(id as int)) + seq!['}'],
        ElementIdView::Wikidata(w) => enc_field('{', "\"Wikidata\""@, enc_str(w)) + seq!['}'],
    }
}

pub open spec fn dec_eid(s: Seq<char>, i: int) -> Option<(ElementIdView, int)> {
    if i < 0 || i >= s.len() || s[i] != '{' {
        None
    } else {
        let j1 = skip_ws(s, i + 1);
        if matches_at(s, j1, "\"Osm\""@) {
            let j2 = skip_ws(s, j1 + "\"Osm\""@.len());
            if j2 >= s.len() || s[j2] != ':' {
                None
            } else {
                match dec_u64(s, skip_ws(s, j2 + 1)) {
                    None => None,
                    Some((id, j3)) => {
                        let j4 = skip_ws(s, j3);
                        if j4 >= s.len() || s[j4] != '}' {
                            None
                        } else {
                            Some((ElementIdView::Osm(id), j4 + 1))
                        }
                    },
                }
            }
        } else if matches_at(s, j1, "\"Wikidata\""@) {
            let j2 = skip_ws(s, j1 + "\"Wikidata\""@.len());
            if j2 >= s.len() || s[j2] != ':' {
                None
            } else {
                match dec_str(s, skip_ws(s, j2 + 1)) {
                    None => None,
                    Some((w, j3)) => {
                        let j4 = skip_ws(s, j3);
                        if j4 >= s.len() || s[j4] != '}' {
                            None
                        } else {
                            Some((ElementIdView::Wikidata(w), j4 + 1))
                        }
                    },
                }
            }
        } else {
            None
        }
    }
}

pub proof fn lemma_enc_eid_first(e: ElementIdView)
    ensures
        enc_eid(e).len() >= 1,
        enc_eid(e)[0] == '{',
        !is_ws(enc_eid(e)[0]),
{
    match e {
        ElementIdView::Osm(id) => {
            assert(enc_eid(e)[0] == '{');
        },
        ElementIdView::Wikidata(w) => {
            assert(enc_eid(e)[0] == '{');
        },
    }
}

pub proof fn lemma_dec_eid_round(s: Seq<char>, i: int, e: ElementIdView)
    requires
        matches_at(s, i, enc_eid(e)),
    ensures
        dec_eid(s, i) == Some((e, i + enc_eid(e).len())),
{
    reveal_strlit("\"Osm\"");
    reveal_strlit("\"Wikidata\"");
    match e {
        ElementIdView::Osm(id) => {
            let f = enc_field('{', "\"Osm\""@, dec_spec(id as int));
            lemma_matches_concat(s, i, f, seq!['}']);
            lemma_dec_spec_digits(id as int);
            lemma_field_split(s, i, '{', "\"Osm\""@, dec_spec(id as int));
            let vpos = i + 2 + "\"Osm\""@.len();
            let vend = vpos + dec_spec(id as int).len();
            assert(s.subrange(i + f.len(), i + f.len() + 1)[0] == s[i + f.len()]);
            assert(s[vend] == '}');
            assert(!is_digit('}'));
            lemma_dec_u64_round(s, vpos, id);
            assert(skip_ws(s, vend) == vend);
        },
        ElementIdView::Wikidata(w) => {
            let f = enc_field('{', "\"Wikidata\""@, enc_str(w));
            lemma_matches_concat(s, i, f, seq!['}']);
            lemma_enc_str_first(w);
            lemma_field_split(s, i, '{', "\"Wikidata\""@, enc_str(w));
            assert(!matches_at(s, i + 1, "\"Osm\""@)) by {
                if matches_at(s, i + 1, "\"Osm\""@) {
                    assert(s.subrange(i + 1, i + 1 + 5)[1] == s[i + 2]);
                    assert(s[i + 2] == 'O');
                    assert(s.subrange(i + 1, i + 1 + 10)[1] == s[i + 2]);
                    assert(s[i + 2] == 'W');
                }
            }
            let vpos = i + 2 + "\"Wikidata\""@.len();
            let vend = vpos + enc_str(w).len();
            assert(s.subrange(i + f.len(), i + f.len() + 1)[0] == s[i + f.len()]);
            assert(s[vend] == '}');
            lemma_dec_str_round(s, vpos, w);
            assert(skip_ws(s, vend) == vend);
        },
    }
}

pub fn parse_element_id(s: &str, n: usize, i: usize) -> (r: Option<(ElementId, usize)>)
    requires
        n == s@.len(),
        i <= n,
    ensures
        r is None ==> dec_eid(s@, i as int) is None,
        r matches Some((v, j)) ==> dec_eid(s@, i as int) == Some((v@, j as int)) && i < j <= n,
{
    if i == n || s.get_char(i) != '{' {
        return None;
    }
    let j1 = eat_ws(s, n, i + 1);
    match eat_lit(s, n, j1, "\"Osm\"") {
        Some(j1b) => {
            let j2 = eat_ws(s, n, j1b);
            if j2 == n || s.get_char(j2) != ':' {
                return None;
            }
            let j2b = eat_ws(s, n, j2 + 1);
            match parse_u64(s, n, j2b) {
                None => None,
                Some((id, j3)) => {
                    let j4 = eat_ws(s, n, j3);
                    if j4 == n || s.get_char(j4) != '}' {
                        return None;
                    }
                    Some((ElementId::Osm(id), j4 + 1))
                },
            }
        },
        None => {
            match eat_lit(s, n, j1, "\"Wikidata\"") {
                Some(j1b) => {
                    let j2 = eat_ws(s, n, j1b);
                    if j2 == n || s.get_char(j2) != ':' {
                        return None;
                    }
                    let j2b = eat_ws(s, n, j2 + 1);
                    match parse_string(s, n, j2b) {
                        None => None,
                        Some((w, j3)) => {
                            let j4 = eat_ws(s, n, j3);
                            if j4 == n || s.get_char(j4) != '}' {
                                return None;
                            }
                            Some((ElementId::Wikidata(w), j4 + 1))
                        },
                    }
                },
                None => None,
            }
        },
    }
}

/// The identities of one record, comma-separated.
pub open spec fn enc_eids_items(ids: Seq<ElementIdView>) -> Seq<char>
    decreases ids.len(),
{
    if ids.len() == 0 {
        Seq::<char>::empty()
    } else if ids.len() == 1 {
        enc_eid(ids[0])
    } else {
        enc_eid(ids[0]) + (seq![','] + enc_eids_items(ids.skip(1)))
    }
}

pub open spec fn enc_eids(ids: Seq<ElementIdView>) -> Seq<char> {
    seq!['['] + (enc_eids_items(ids) + seq![']'])
}

pub open spec fn dec_eids_items(s: Seq<char>, i: int, fuel: int) -> Option<
    (Seq<ElementIdView>, int),
>
    decreases fuel,
{
    if fuel <= 0 {
        None
    } else {
        match dec_eid(s, i) {
            None => None,
            Some((e, j)) => {
                let j2 = skip_ws(s, j);
                if j2 < s.len() && s[j2] == ']' {
                    Some((seq![e], j2 + 1))
                } else if j2 < s.len() && s[j2] == ',' {
                    let j3 = skip_ws(s, j2 + 1);
                    match dec_eids_items(s, j3, fuel - 1) {
                        None => None,
                        Some((rest, j4)) => Some((seq![e] + rest, j4)),
                    }
                } else {
                    None
                }
            },
        }
    }
}

pub open spec fn dec_eids(s: Seq<char>, i: int, fuel: int) -> Option<(Seq<ElementIdView>, int)> {
    if i < 0 || i >= s.len() || s[i] != '[' {
        None
    } else {
        let j1 = skip_ws(s, i + 1);
        if j1 < s.len() && s[j1] == ']' {
            Some((Seq::<ElementIdView>::empty(), j1 + 1))
        } else {
            dec_eids_items(s, j1, fuel)
        }
    }
}

proof fn lemma_enc_eids_items_len(ids: Seq<ElementIdView>)
    requires
        ids.len() >= 1,
    ensures
        enc_eids_items(ids).len() >= 1,
        enc_eids_items(ids)[0] == '{',
    decreases ids.len(),
{
    lemma_enc_eid_first(ids[0]);
    if ids.len() == 1 {
    } else {
        assert(enc_eids_items(ids)[0] == enc_eid(ids[0])[0]);
    }
}

proof fn lemma_dec_eids_items_round(s: Seq<char>, i: int, ids: Seq<ElementIdView>, fuel: int)
    requires
        ids.len() >= 1,
        matches_at(s, i, enc_eids_items(ids)),
        i + enc_eids_items(ids).len() < s.len(),
        s[i + enc_eids_items(ids).len()] == ']',
        fuel >= s.len() - i,
    ensures
        dec_eids_items(s, i, fuel) == Some((ids, i + enc_eids_items(ids).len() + 1)),
    decreases ids.len(),
{
    lemma_enc_eid_first(ids[0]);
    if ids.len() == 1 {
        lemma_dec_eid_round(s, i, ids[0]);
        let j = i + enc_eid(ids[0]).len();
        assert(s[j] == ']');
        assert(skip_ws(s, j) == j);
        assert(seq![ids[0]] =~= ids);
    } else {
        let rest = ids.skip(1);
        assert(enc_eids_items(ids) =~= enc_eid(ids[0]) + (seq![','] + enc_eids_items(rest)));
        lemma_matches_concat(s, i, enc_eid(ids[0]), seq![','] + enc_eids_items(rest));
        lemma_dec_eid_round(s, i, ids[0]);
        let j = i + enc_eid(ids[0]).len();
        lemma_matches_concat(s, j, seq![','], enc_eids_items(rest));
        assert(s.subrange(j, j + 1)[0] == s[j]);
        assert(s[j] == ',');
        assert(skip_ws(s, j) == j);
        assert(s[j] != ']');
        lemma_enc_eids_items_len(rest);
        assert(s.subrange(j + 1, j + 1 + enc_eids_items(rest).len())[0] == s[j + 1]);
        assert(s[j + 1] == '{');
        assert(skip_ws(s, j + 1) == j + 1);
        lemma_dec_eids_items_round(s, j + 1, rest, fuel - 1);
        assert(seq![ids[0]] + rest =~= ids);
    }
}

pub proof fn lemma_dec_eids_round(s: Seq<char>, i: int, ids: Seq<ElementIdView>, fuel: int)
    requires
        matches_at(s, i, enc_eids(ids)),
        fuel >= s.len() - i,
    ensures
        dec_eids(s, i, fuel) == Some((ids, i + enc_eids(ids).len())),
{
    lemma_matches_concat(s, i, seq!['['], enc_eids_items(ids) + seq![']']);
    assert(s.subrange(i, i + 1)[0] == s[i]);
    assert(s[i] == '[');
    lemma_matches_concat(s, i + 1, enc_eids_items(ids), seq![']']);
    let e = i + 1 + enc_eids_items(ids).len();
    assert(s.subrange(e, e + 1)[0] == s[e]);
    assert(s[e] == ']');
    if ids.len() == 0 {
        assert(skip_ws(s, i + 1) == i + 1);
        assert(ids =~= Seq::<ElementIdView>::empty());
    } else {
        lemma_enc_eids_items_len(ids);
        assert(s.subrange(i + 1, i + 1 + enc_eids_items(ids).len())[0] == s[i + 1]);
        assert(s[i + 1] == '{');
        assert(skip_ws(s, i + 1) == i + 1);
        assert(s[i + 1] != ']');
        lemma_dec_eids_items_round(s, i + 1, ids, fuel);
    }
}

fn parse_eids_items(s: &str, n: usize, i: usize, fuel: usize) -> (r: Option<
    (Vec<ElementId>, usize),
>)
    requires
        n == s@.len(),
        i <= n,
    ensures
        r is None ==> dec_eids_items(s@, i as int, fuel as int) is None,
        r matches Some((v, j)) ==> dec_eids_items(s@, i as int, fuel as int) == Some(
            (v.deep_view(), j as int),
        ) && i <= j <= n,
    decreases fuel,
{
    if fuel == 0 {
        return None;
    }
    match parse_element_id(s, n, i) {
        None => None,
        Some((e, j)) => {
            let ghost ev = e@;
            let j2 = eat_ws(s, n, j);
            if j2 < n && s.get_char(j2) == ']' {
                let mut v: Vec<ElementId> = Vec::new();
                v.push(e);
                proof {
                    assert(v.deep_view() =~= seq![ev]);
                }
                Some((v, j2 + 1))
            } else if j2 < n && s.get_char(j2) == ',' {
                let j3 = eat_ws(s, n, j2 + 1);
                match parse_eids_items(s, n, j3, fuel - 1) {
                    None => None,
                    Some((mut rest, j4)) => {
                        let ghost restdv = rest.deep_view();
                        let ghost restseq = rest@;
                        rest.insert(0, e);
                        proof {
                            assert forall|k: int| 0 <= k < rest@.len() implies rest.deep_view()[
                                k
                            ] == (seq![ev] + restdv)[k] by {
                                if k == 0 {
                                    assert(rest@[0].deep_view() == ev);
                                } else {
                                    assert(rest@[k] == restseq[k - 1]);
                                }
                            }
                            assert(rest.deep_view() =~= seq![ev] + restdv);
                        }
                        Some((rest, j4))
                    },
                }
            } else {
                None
            }
        },
    }
}

pub fn parse_eids(s: &str, n: usize, i: usize, fuel: usize) -> (r: Option<
    (Vec<ElementId>, usize),
>)
    requires
        n == s@.len(),
        i <= n,
    ensures
        r is None ==> dec_eids(s@, i as int, fuel as int) is None,
        r matches Some((v, j)) ==> dec_eids(s@, i as int, fuel as int) == Some(
            (v.deep_view(), j as int),
        ) && i < j <= n,
{
    if i == n || s.get_char(i) != '[' {
        return None;
    }
    let j1 = eat_ws(s, n, i + 1);
    if j1 < n && s.get_char(j1) == ']' {
        let v: Vec<ElementId> = Vec::new();
        proof {
            assert(v.deep_view() =~= Seq::<ElementIdView>::empty());
        }
        return Some((v, j1 + 1));
    }
    parse_eids_items(s, n, j1, fuel)
}

/// After optional whitespace: the key, optional whitespace, a colon; the
/// position where the value starts.
pub open spec fn key_start(s: Seq<char>, j: int, key: Seq<char>) -> Option<int> {
    let b = skip_ws(s, j);
    if !matches_at(s, b, key) {
        None
    } else {
        let c = skip_ws(s, b + key.len());
        if c >= s.len() || s[c] != ':' {
            None
        } else {
            Some(skip_ws(s, c + 1))
        }
    }
}

/// A comma, then a key and its colon.
pub open spec fn comma_key_start(s: Seq<char>, j: int, key: Seq<char>) -> Option<int> {
    let a = skip_ws(s, j);
    if a >= s.len() || s[a] != ',' {
        None
    } else {
        key_start(s, a + 1, key)
    }
}

fn eat_key_start(s: &str, n: usize, j: usize, key: &str) -> (r: Option<usize>)
    requires
        n == s@.len(),
        j <= n,
    ensures
        r is None ==> key_start(s@, j as int, key@) is None,
        r matches Some(v) ==> key_start(s@, j as int, key@) == Some(v as int) && j <= v <= n,
{
    let b = eat_ws(s, n, j);
    let b2 = match eat_lit(s, n, b, key) {
        Some(x) => x,
        None => {
            return None;
        },
    };
    let c = eat_ws(s, n, b2);
    if c == n || s.get_char(c) != ':' {
        return None;
    }
    Some(eat_ws(s, n, c + 1))
}

fn eat_comma_key_start(s: &str, n: usize, j: usize, key: &str) -> (r: Option<usize>)
    requires
        n == s@.len(),
        j <= n,
    ensures
        r is None ==> comma_key_start(s@, j as int, key@) is None,
        r matches Some(v) ==> comma_key_start(s@, j as int, key@) == Some(v as int) && j <= v
            <= n,
{
    let a = eat_ws(s, n, j);
    if a == n || s.get_char(a) != ',' {
        return None;
    }
    eat_key_start(s, n, a + 1, key)
}

/// Where a written field's key and value stand: no whitespace separates
/// the canonical pieces.
proof fn lemma_field_start(s: Seq<char>, i: int, lead: char, key: Seq<char>, val: Seq<char>)
    requires
        matches_at(s, i, enc_field(lead, key, val)),
        key.len() >= 1,
        !is_ws(key[0]),
        val.len() >= 1,
        !is_ws(val[0]),
    ensures
        s[i] == lead,
        key_start(s, i + 1, key) == Some(i + 2 + key.len()),
        lead == ',' && !is_ws(lead) ==> comma_key_start(s, i, key) == Some(i + 2 + key.len()),
        matches_at(s, i + 2 + key.len(), val),
{
    lemma_matches_concat(s, i, seq![lead], key + (seq![':'] + val));
    assert(s.subrange(i, i + 1)[0] == s[i]);
    let p1 = i + 1;
    lemma_matches_concat(s, p1, key, seq![':'] + val);
    assert(s.subrange(p1, p1 + key.len())[0] == s[p1]);
    assert(!is_ws(s[p1]));
    assert(skip_ws(s, p1) == p1);
    let p2 = p1 + key.len();
    lemma_matches_concat(s, p2, seq![':'], val);
    assert(s.subrange(p2, p2 + 1)[0] == s[p2]);
    assert(s[p2] == ':');
    assert(!is_ws(':'));
    assert(skip_ws(s, p2) == p2);
    let p3 = p2 + 1;
    assert(s.subrange(p3, p3 + val.len())[0] == s[p3]);
    assert(!is_ws(s[p3]));
    assert(skip_ws(s, p3) == p3);
    if lead == ',' && !is_ws(lead) {
        assert(skip_ws(s, i) == i);
    }
}

/// One record as a JSON object, the fields in declaration order.
#[verifier::opaque]
pub open spec fn enc_record(e: MapEntryView) -> Seq<char> {
    enc_field('{', "\"pos\""@, enc_opt_pos(e.pos)) + (enc_field(
        ',',
        "\"name\""@,
        enc_opt_str(e.name),
    ) + (enc_field(',', "\"location_name\""@, enc_opt_str(e.location_name)) + (enc_field(
        ',',
        "\"image\""@,
        enc_opt_img(e.image),
    ) + (enc_field(',', "\"source_url\""@, enc_opt_str(e.source_url)) + (enc_field(
        ',',
        "\"is_in_exhibit\""@,
        enc_bool(e.is_in_exhibit),
    ) + (enc_field(',', "\"nature\""@, enc_opt_str(e.nature)) + (enc_field(
        ',',
        "\"element_ids\""@,
        enc_eids(e.element_ids),
    ) + seq!['}'])))))))
}

#[verifier::opaque]
pub open spec fn dec_record(s: Seq<char>, i: int, fuel: int) -> Option<(MapEntryView, int)> {
    if i < 0 || i >= s.len() || s[i] != '{' {
        None
    } else {
        match key_start(s, i + 1, "\"pos\""@) {
            None => None,
            Some(v1) => match dec_opt_pos(s, v1) {
                None => None,
                Some((pos, r1)) => match comma_key_start(s, r1, "\"name\""@) {
                    None => None,
                    Some(v2) => match dec_opt_str(s, v2) {
                        None => None,
                        Some((name, r2)) => match comma_key_start(
                            s,
                            r2,
                            "\"location_name\""@,
                        ) {
                            None => None,
                            Some(v3) => match dec_opt_str(s, v3) {
                                None => None,
                                Some((location_name, r3)) => match comma_key_start(
                                    s,
                                    r3,
                                    "\"image\""@,
                                ) {
                                    None => None,
                                    Some(v4) => match dec_opt_img(s, v4) {
                                        None => None,
                                        Some((image, r4)) => match comma_key_start(
                                            s,
                                            r4,
                                            "\"source_url\""@,
                                        ) {
                                            None => None,
                                            Some(v5) => match dec_opt_str(s, v5) {
                                                None => None,
                                                Some((source_url, r5)) => match comma_key_start(
                                                    s,
                                                    r5,
                                                    "\"is_in_exhibit\""@,
                                                ) {
                                                    None => None,
                                                    Some(v6) => match dec_bool(s, v6) {
                                                        None => None,
                                                        Some(
                                                            (is_in_exhibit, r6),
                                                        ) => match comma_key_start(
                                                            s,
                                                            r6,
                                                            "\"nature\""@,
                                                        ) {
                                                            None => None,
                                                            Some(v7) => match dec_opt_str(
                                                                s,
                                                                v7,
                                                            ) {
                                                                None => None,
                                                                Some(
                                                                    (nature, r7),
                                                                ) => match comma_key_start(
                                                                    s,
                                                                    r7,
                                                                    "\"element_ids\""@,
                                                                ) {
                                                                    None => None,
                                                                    Some(v8) => match dec_eids(
                                                                        s,
                                                                        v8,
                                                                        fuel,
                                                                    ) {
                                                                        None => None,
                                                                        Some(
                                                                            (element_ids, r8),
                                                                        ) => {
                                                                            let z = skip_ws(
                                                                                s,
                                                                                r8,
                                                                            );
                                                                            if z >= s.len()
                                                                                || s[z] != '}' {
                                                                                None
                                                                            } else {
                                                                                Some(
                                                                                    (
                                                                                        MapEntryView {
                                                                                            pos,
                                                                                            name,
                                                                                            location_name,
                                                                                            image,
                                                                                            source_url,
                                                                                            is_in_exhibit,
                                                                                            nature,
                                                                                            element_ids,
                                                                                        },
                                                                                        z + 1,
                                                                                    ),
                                                                                )
                                                                            }
                                                                        },
                                                                    },
                                                                },
                                                            },
                                                        },
                                                    },
                                                },
                                            },
                                        },
                                    },
                                },
                            },
                        },
                    },
                },
            },
        }
    }
}

pub proof fn lemma_enc_record_first(e: MapEntryView)
    ensures
        enc_record(e).len() >= 1,
        enc_record(e)[0] == '{',
{
    reveal(enc_record);
    assert(enc_record(e)[0] == enc_field('{', "\"pos\""@, enc_opt_pos(e.pos))[0]);
}

pub proof fn lemma_enc_eids_first(ids: Seq<ElementIdView>)
    ensures
        enc_eids(ids).len() >= 1,
        enc_eids(ids)[0] == '[',
        !is_ws(enc_eids(ids)[0]),
{
}

#[verifier::rlimit(100)]
pub proof fn lemma_dec_record_round(s: Seq<char>, i: int, e: MapEntryView, fuel: int)
    requires
        matches_at(s, i, enc_record(e)),
        fuel >= s.len() - i,
    ensures
        dec_record(s, i, fuel) == Some((e, i + enc_record(e).len())),
{
    reveal(enc_record);
    reveal(dec_record);
    reveal_strlit("\"pos\"");
    reveal_strlit("\"name\"");
    reveal_strlit("\"location_name\"");
    reveal_strlit("\"image\"");
    reveal_strlit("\"source_url\"");
    reveal_strlit("\"is_in_exhibit\"");
    reveal_strlit("\"nature\"");
    reveal_strlit("\"element_ids\"");
    let f1 = enc_field('{', "\"pos\""@, enc_opt_pos(e.pos));
    let f2 = enc_field(',', "\"name\""@, enc_opt_str(e.name));
    let f3 = enc_field(',', "\"location_name\""@, enc_opt_str(e.location_name));
    let f4 = enc_field(',', "\"image\""@, enc_opt_img(e.image));
    let f5 = enc_field(',', "\"source_url\""@, enc_opt_str(e.source_url));
    let f6 = enc_field(',', "\"is_in_exhibit\""@, enc_bool(e.is_in_exhibit));
    let f7 = enc_field(',', "\"nature\""@, enc_opt_str(e.nature));
    let f8 = enc_field(',', "\"element_ids\""@, enc_eids(e.element_ids));
    let p1 = i;
    lemma_matches_concat(s, p1, f1, f2 + (f3 + (f4 + (f5 + (f6 + (f7 + (f8 + seq!['}'])))))));
    let p2 = p1 + f1.len();
    lemma_matches_concat(s, p2, f2, f3 + (f4 + (f5 + (f6 + (f7 + (f8 + seq!['}']))))));
    let p3 = p2 + f2.len();
    lemma_matches_concat(s, p3, f3, f4 + (f5 + (f6 + (f7 + (f8 + seq!['}'])))));
    let p4 = p3 + f3.len();
    lemma_matches_concat(s, p4, f4, f5 + (f6 + (f7 + (f8 + seq!['}']))));
    let p5 = p4 + f4.len();
    lemma_matches_concat(s, p5, f5, f6 + (f7 + (f8 + seq!['}'])));
    let p6 = p5 + f5.len();
    lemma_matches_concat(s, p6, f6, f7 + (f8 + seq!['}']));
    let p7 = p6 + f6.len();
    lemma_matches_concat(s, p7, f7, f8 + seq!['}']);
    let p8 = p7 + f7.len();
    lemma_matches_concat(s, p8, f8, seq!['}']);
    let p9 = p8 + f8.len();
    lemma_enc_opt_pos_first(e.pos);
    lemma_enc_opt_str_first(e.name);
    lemma_enc_opt_str_first(e.location_name);
    lemma_enc_opt_img_first(e.image);
    lemma_enc_opt_str_first(e.source_url);
    lemma_enc_bool_first(e.is_in_exhibit);
    lemma_enc_opt_str_first(e.nature);
    lemma_enc_eids_first(e.element_ids);
    lemma_field_start(s, p1, '{', "\"pos\""@, enc_opt_pos(e.pos));
    lemma_field_start(s, p2, ',', "\"name\""@, enc_opt_str(e.name));
    lemma_field_start(s, p3, ',', "\"location_name\""@, enc_opt_str(e.location_name));
    lemma_field_start(s, p4, ',', "\"image\""@, enc_opt_img(e.image));
    lemma_field_start(s, p5, ',', "\"source_url\""@, enc_opt_str(e.source_url));
    lemma_field_start(s, p6, ',', "\"is_in_exhibit\""@, enc_bool(e.is_in_exhibit));
    lemma_field_start(s, p7, ',', "\"nature\""@, enc_opt_str(e.nature));
    lemma_field_start(s, p8, ',', "\"element_ids\""@, enc_eids(e.element_ids));
    lemma_dec_opt_pos_round(s, p1 + 2 + "\"pos\""@.len(), e.pos);
    lemma_dec_opt_str_round(s, p2 + 2 + "\"name\""@.len(), e.name);
    lemma_dec_opt_str_round(s, p3 + 2 + "\"location_name\""@.len(), e.location_name);
    lemma_dec_opt_img_round(s, p4 + 2 + "\"image\""@.len(), e.image);
    lemma_dec_opt_str_round(s, p5 + 2 + "\"source_url\""@.len(), e.source_url);
    lemma_dec_bool_round(s, p6 + 2 + "\"is_in_exhibit\""@.len(), e.is_in_exhibit);
    lemma_dec_opt_str_round(s, p7 + 2 + "\"nature\""@.len(), e.nature);
    let veid = p8 + 2 + "\"element_ids\""@.len();
    lemma_dec_eids_round(s, veid, e.element_ids, fuel);
    assert(s.subrange(p9, p9 + 1)[0] == s[p9]);
    assert(s[p9] == '}');
    assert(skip_ws(s, p9) == p9);
}

#[verifier::rlimit(100)]
pub fn parse_record(s: &str, n: usize, i: usize, fuel: usize) -> (r: Option<(MapEntry, usize)>)
    requires
        n == s@.len(),
        i <= n,
    ensures
        r is None ==> dec_record(s@, i as int, fuel as int) is None,
        r matches Some((v, j)) ==> dec_record(s@, i as int, fuel as int) == Some(
            (v@, j as int),
        ) && i < j <= n,
{
    proof {
        reveal(dec_record);
    }
    if i == n || s.get_char(i) != '{' {
        return None;
    }
    let v1 = match eat_key_start(s, n, i + 1, "\"pos\"") {
        Some(x) => x,
        None => {
            return None;
        },
    };
    let (pos, r1) = match parse_opt_pos(s, n, v1) {
        Some(x) => x,
        None => {
            return None;
        },
    };
    let v2 = match eat_comma_key_start(s, n, r1, "\"name\"") {
        Some(x) => x,
        None => {
            return None;
        },
    };
    let (name, r2) = match parse_opt_string(s, n, v2) {
        Some(x) => x,
        None => {
            return None;
        },
    };
    let v3 = match eat_comma_key_start(s, n, r2, "\"location_name\"") {
        Some(x) => x,
        None => {
            return None;
        },
    };
    let (location_name, r3) = match parse_opt_string(s, n, v3) {
        Some(x) => x,
        None => {
            return None;
        },
    };
    let v4 = match eat_comma_key_start(s, n, r3, "\"image\"") {
        Some(x) => x,
        None => {
            return None;
        },
    };
    let (image, r4) = match parse_opt_image(s, n, v4) {
        Some(x) => x,
        None => {
            return None;
        },
    };
    let v5 = match eat_comma_key_start(s, n, r4, "\"source_url\"") {
        Some(x) => x,
        None => {
            return None;
        },
    };
    let (source_url, r5) = match parse_opt_string(s, n, v5) {
        Some(x) => x,
        None => {
            return None;
        },
    };
    let v6 = match eat_comma_key_start(s, n, r5, "\"is_in_exhibit\"") {
        Some(x) => x,
        None => {
            return None;
        },
    };
    let (is_in_exhibit, r6) = match parse_bool(s, n, v6) {
        Some(x) => x,
        None => {
            return None;
        },
    };
    let v7 = match eat_comma_key_start(s, n, r6, "\"nature\"") {
        Some(x) => x,
        None => {
            return None;
        },
    };
    let (nature, r7) = match parse_opt_string(s, n, v7) {
        Some(x) => x,
        None => {
            return None;
        },
    };
    let v8 = match eat_comma_key_start(s, n, r7, "\"element_ids\"") {
        Some(x) => x,
        None => {
            return None;
        },
    };
    let (element_ids, r8) = match parse_eids(s, n, v8, fuel) {
        Some(x) => x,
        None => {
            return None;
        },
    };
    let z = eat_ws(s, n, r8);
    if z == n || s.get_char(z) != '}' {
        return None;
    }
    let e = MapEntry {
        pos,
        name,
        location_name,
        image,
        source_url,
        is_in_exhibit,
        nature,
        element_ids,
    };
    Some((e, z + 1))
}

/// A record list, one record per line.
pub open spec fn enc_entries_items(l: Seq<MapEntryView>) -> Seq<char>
    decreases l.len(),
{
    if l.len() == 0 {
        Seq::<char>::empty()
    } else if l.len() == 1 {
        enc_record(l[0])
    } else {
        enc_record(l[0]) + (seq![',', '\n'] + enc_entries_items(l.skip(1)))
    }
}

pub open spec fn enc_entries(l: Seq<MapEntryView>) -> Seq<char> {
    seq!['['] + (enc_entries_items(l) + seq![']'])
}

pub open spec fn dec_entries_items(s: Seq<char>, i: int, fuel: int) -> Option<
    (Seq<MapEntryView>, int),
>
    decreases fuel,
{
    if fuel <= 0 {
        None
    } else {
        match dec_record(s, i, fuel) {
            None => None,
            Some((e, j)) => {
                let j2 = skip_ws(s, j);
                if j2 < s.len() && s[j2] == ']' {
                    Some((seq![e], j2 + 1))
                } else if j2 < s.len() && s[j2] == ',' {
                    let j3 = skip_ws(s, j2 + 1);
                    match dec_entries_items(s, j3, fuel - 1) {
                        None => None,
                        Some((rest, j4)) => Some((seq![e] + rest, j4)),
                    }
                } else {
                    None
                }
            },
        }
    }
}

pub open spec fn dec_entries_f(s: Seq<char>, i: int, fuel: int) -> Option<
    (Seq<MapEntryView>, int),
> {
    if i < 0 || i >= s.len() || s[i] != '[' {
        None
    } else {
        let j1 = skip_ws(s, i + 1);
        if j1 < s.len() && s[j1] == ']' {
            Some((Seq::<MapEntryView>::empty(), j1 + 1))
        } else {
            dec_entries_items(s, j1, fuel)
        }
    }
}

/// The record list a text holds from position `i` on.
pub open spec fn dec_entries(s: Seq<char>, i: int) -> Option<(Seq<MapEntryView>, int)> {
    dec_entries_f(s, i, s.len() as int)
}

proof fn lemma_enc_entries_items_first(l: Seq<MapEntryView>)
    requires
        l.len() >= 1,
    ensures
        enc_entries_items(l).len() >= 1,
        enc_entries_items(l)[0] == '{',
    decreases l.len(),
{
    lemma_enc_record_first(l[0]);
    if l.len() == 1 {
    } else {
        assert(enc_entries_items(l)[0] == enc_record(l[0])[0]);
    }
}

#[verifier::rlimit(100)]
proof fn lemma_dec_entries_items_round(s: Seq<char>, i: int, l: Seq<MapEntryView>, fuel: int)
    requires
        l.len() >= 1,
        matches_at(s, i, enc_entries_items(l)),
        i + enc_entries_items(l).len() < s.len(),
        s[i + enc_entries_items(l).len()] == ']',
        fuel >= s.len() - i,
    ensures
        dec_entries_items(s, i, fuel) == Some((l, i + enc_entries_items(l).len() + 1)),
    decreases l.len(),
{
    lemma_enc_record_first(l[0]);
    if l.len() == 1 {
        lemma_dec_record_round(s, i, l[0], fuel);
        let j = i + enc_record(l[0]).len();
        assert(s[j] == ']');
        assert(skip_ws(s, j) == j);
        assert(seq![l[0]] =~= l);
    } else {
        let rest = l.skip(1);
        assert(enc_entries_items(l) =~= enc_record(l[0]) + (seq![',', '\n']
            + enc_entries_items(rest)));
        lemma_matches_concat(s, i, enc_record(l[0]), seq![',', '\n'] + enc_entries_items(rest));
        lemma_dec_record_round(s, i, l[0], fuel);
        let j = i + enc_record(l[0]).len();
        lemma_matches_concat(s, j, seq![',', '\n'], enc_entries_items(rest));
        assert(s.subrange(j, j + 2)[0] == s[j] && s.subrange(j, j + 2)[1] == s[j + 1]);
        assert(s[j] == ',' && s[j + 1] == '\n');
        assert(skip_ws(s, j) == j);
        assert(s[j] != ']');
        lemma_enc_entries_items_first(rest);
        assert(s.subrange(j + 2, j + 2 + enc_entries_items(rest).len())[0] == s[j + 2]);
        assert(s[j + 2] == '{');
        assert(skip_ws(s, j + 2) == j + 2);
        assert(skip_ws(s, j + 1) == j + 2);
        lemma_dec_entries_items_round(s, j + 2, rest, fuel - 1);
        assert(seq![l[0]] + rest =~= l);
    }
}

/// Decoding is a left inverse of encoding: a canonical record list comes
/// back exactly from its text.
pub proof fn lemma_dec_entries_round(s: Seq<char>, i: int, l: Seq<MapEntryView>)
    requires
        matches_at(s, i, enc_entries(l)),
    ensures
        dec_entries(s, i) == Some((l, i + enc_entries(l).len())),
{
    lemma_matches_concat(s, i, seq!['['], enc_entries_items(l) + seq![']']);
    assert(s.subrange(i, i + 1)[0] == s[i]);
    assert(s[i] == '[');
    lemma_matches_concat(s, i + 1, enc_entries_items(l), seq![']']);
    let e = i + 1 + enc_entries_items(l).len();
    assert(s.subrange(e, e + 1)[0] == s[e]);
    assert(s[e] == ']');
    if l.len() == 0 {
        assert(skip_ws(s, i + 1) == i + 1);
        assert(l =~= Seq::<MapEntryView>::empty());
    } else {
        lemma_enc_entries_items_first(l);
        assert(s.subrange(i + 1, i + 1 + enc_entries_items(l).len())[0] == s[i + 1]);
        assert(s[i + 1] == '{');
        assert(skip_ws(s, i + 1) == i + 1);
        assert(s[i + 1] != ']');
        lemma_dec_entries_items_round(s, i + 1, l, s.len() as int);
    }
}

fn parse_entries_items(s: &str, n: usize, i: usize, fuel: usize) -> (r: Option<
    (Vec<MapEntry>, usize),
>)
    requires
        n == s@.len(),
        i <= n,
    ensures
        r is None ==> dec_entries_items(s@, i as int, fuel as int) is None,
        r matches Some((v, j)) ==> dec_entries_items(s@, i as int, fuel as int) == Some(
            (v.deep_view(), j as int),
        ) && i <= j <= n,
    decreases fuel,
{
    if fuel == 0 {
        return None;
    }
    match parse_record(s, n, i, fuel) {
        None => None,
        Some((e, j)) => {
            let ghost ev = e@;
            let j2 = eat_ws(s, n, j);
            if j2 < n && s.get_char(j2) == ']' {
                let mut v: Vec<MapEntry> = Vec::new();
                v.push(e);
                proof {
                    assert(v.deep_view() =~= seq![ev]);
                }
                Some((v, j2 + 1))
            } else if j2 < n && s.get_char(j2) == ',' {
                let j3 = eat_ws(s, n, j2 + 1);
                match parse_entries_items(s, n, j3, fuel - 1) {
                    None => None,
                    Some((mut rest, j4)) => {
                        let ghost restdv = rest.deep_view();
                        let ghost restseq = rest@;
                        rest.insert(0, e);
                        proof {
                            assert forall|k: int| 0 <= k < rest@.len() implies rest.deep_view()[
                                k
                            ] == (seq![ev] + restdv)[k] by {
                                if k == 0 {
                                    assert(rest@[0].deep_view() == ev);
                                } else {
                                    assert(rest@[k] == restseq[k - 1]);
                                }
                            }
                            assert(rest.deep_view() =~= seq![ev] + restdv);
                        }
                        Some((rest, j4))
                    },
                }
            } else {
                None
            }
        },
    }
}

/// Parse a record list from position `i`; exactly the spec decoder.
pub fn parse_entries(s: &str, n: usize, i: usize) -> (r: Option<(Vec<MapEntry>, usize)>)
    requires
        n == s@.len(),
        i <= n,
    ensures
        r is None ==> dec_entries(s@, i as int) is None,
        r matches Some((v, j)) ==> dec_entries(s@, i as int) == Some((v.deep_view(), j as int))
            && i < j <= n,
{
    if i == n || s.get_char(i) != '[' {
        return None;
    }
    let j1 = eat_ws(s, n, i + 1);
    if j1 < n && s.get_char(j1) == ']' {
        let v: Vec<MapEntry> = Vec::new();
        proof {
            assert(v.deep_view() =~= Seq::<MapEntryView>::empty());
        }
        return Some((v, j1 + 1));
    }
    parse_entries_items(s, n, j1, n)
}

/// The private refresh metadata as a JSON object.
pub open spec fn enc_private(o: Option<u64>) -> Seq<char> {
    enc_field(
        '{',
        "\"last_updated\""@,
        match o {
            None => "null"@,
            Some(v) => dec_spec(v as int),
        },
    ) + seq!['}']
}

pub open spec fn dec_private(s: Seq<char>, i: int) -> Option<(Option<u64>, int)> {
    if i < 0 || i >= s.len() || s[i] != '{' {
        None
    } else {
        match key_start(s, i + 1, "\"last_updated\""@) {
            None => None,
            Some(v) => {
                if v < s.len() && s[v] == 'n' {
                    if matches_at(s, v, "null"@) {
                        let z = skip_ws(s, v + "null"@.len());
                        if z >= s.len() || s[z] != '}' {
                            None
                        } else {
                            Some((None, z + 1))
                        }
                    } else {
                        None
                    }
                } else {
                    match dec_u64(s, v) {
                        None => None,
                        Some((t, j)) => {
                            let z = skip_ws(s, j);
                            if z >= s.len() || s[z] != '}' {
                                None
                            } else {
                                Some((Some(t), z + 1))
                            }
                        },
                    }
                }
            },
        }
    }
}

pub proof fn lemma_dec_private_round(s: Seq<char>, i: int, o: Option<u64>)
    requires
        matches_at(s, i, enc_private(o)),
    ensures
        dec_private(s, i) == Some((o, i + enc_private(o).len())),
{
    reveal_strlit("\"last_updated\"");
    reveal_strlit("null");
    let val: Seq<char> = match o {
        None => "null"@,
        Some(v) => dec_spec(v as int),
    };
    let f = enc_field('{', "\"last_updated\""@, val);
    lemma_matches_concat(s, i, f, seq!['}']);
    match o {
        None => {
            assert(val[0] == 'n');
            assert(!is_ws(val[0]));
        },
        Some(v) => {
            lemma_dec_spec_digits(v as int);
            assert(is_digit(val[0]));
            assert(!is_ws(val[0]));
        },
    }
    lemma_field_start(s, i, '{', "\"last_updated\""@, val);
    let vp = i + 2 + "\"last_updated\""@.len();
    let ve = vp + val.len();
    assert(s.subrange(i + f.len(), i + f.len() + 1)[0] == s[i + f.len()]);
    assert(s[ve] == '}');
    assert(skip_ws(s, ve) == ve);
    match o {
        None => {
            assert(s.subrange(vp, vp + 4)[0] == s[vp]);
            assert(s[vp] == 'n');
        },
        Some(v) => {
            assert(s.subrange(vp, vp + dec_spec(v as int).len())[0] == s[vp]);
            assert(is_digit(s[vp]));
            assert(s[vp] != 'n');
            assert(!is_digit('}'));
            lemma_dec_u64_round(s, vp, v);
        },
    }
}

pub fn parse_private(s: &str, n: usize, i: usize) -> (r: Option<(Option<u64>, usize)>)
    requires
        n == s@.len(),
        i <= n,
    ensures
        r is None ==> dec_private(s@, i as int) is None,
        r matches Some((v, j)) ==> dec_private(s@, i as int) == Some((v, j as int)) && i < j
            <= n,
{
    if i == n || s.get_char(i) != '{' {
        return None;
    }
    let v = match eat_key_start(s, n, i + 1, "\"last_updated\"") {
        Some(x) => x,
        None => {
            return None;
        },
    };
    if v < n && s.get_char(v) == 'n' {
        match eat_lit(s, n, v, "null") {
            Some(j) => {
                proof {
                    reveal_strlit("null");
                }
                let z = eat_ws(s, n, j);
                if z == n || s.get_char(z) != '}' {
                    return None;
                }
                Some((None, z + 1))
            },
            None => None,
        }
    } else {
        match parse_u64(s, n, v) {
            None => None,
            Some((t, j)) => {
                let z = eat_ws(s, n, j);
                if z == n || s.get_char(z) != '}' {
                    return None;
                }
                Some((Some(t), z + 1))
            },
        }
    }
}

fn digit_str(d: u64) -> (r: &'static str)
    requires
        d < 10,
    ensures
        r@ == seq![digit_char(d as int)],
{
    if d == 0 {
        proof {
            reveal_strlit("0");
            assert("0"@ =~= seq![digit_char(0)]);
        }
        "0"
    } else if d == 1 {
        proof {
            reveal_strlit("1");
            assert("1"@ =~= seq![digit_char(1)]);
        }
        "1"
    } else if d == 2 {
        proof {
            reveal_strlit("2");
            assert("2"@ =~= seq![digit_char(2)]);
        }
        "2"
    } else if d == 3 {
        proof {
            reveal_strlit("3");
            assert("3"@ =~= seq![digit_char(3)]);
        }
        "3"
    } else if d == 4 {
        proof {
            reveal_strlit("4");
            assert("4"@ =~= seq![digit_char(4)]);
        }
        "4"
    } else if d == 5 {
        proof {
            reveal_strlit("5");
            assert("5"@ =~= seq![digit_char(5)]);
        }
        "5"
    } else if d == 6 {
        proof {
            reveal_strlit("6");
            assert("6"@ =~= seq![digit_char(6)]);
        }
        "6"
    } else if d == 7 {
        proof {
            reveal_strlit("7");
            assert("7"@ =~= seq![digit_char(7)]);
        }
        "7"
    } else if d == 8 {
        proof {
            reveal_strlit("8");
            assert("8"@ =~= seq![digit_char(8)]);
        }
        "8"
    } else {
        proof {
            reveal_strlit("9");
            assert("9"@ =~= seq![digit_char(9)]);
        }
        "9"
    }
}

pub fn encode_u64_digits(n: u64) -> (r: String)
    ensures
        r@ == dec_spec(n as int),
    decreases n,
{
    if n < 10 {
        let r = String::from_str(digit_str(n));
        proof {
            assert(r@ =~= dec_spec(n as int));
        }
        r
    } else {
        let mut r = encode_u64_digits(n / 10);
        r.append(digit_str(n % 10));
        proof {
            assert(r@ =~= dec_spec(n as int / 10).push(digit_char(n as int % 10)));
        }
        r
    }
}

fn write_u64(out: &mut String, v: u64)
    ensures
        final(out)@ == old(out)@ + dec_spec(v as int),
{
    let d = encode_u64_digits(v);
    out.append(d.as_str());
}

fn write_pad(out: &mut String, f: u64, w: u64)
    requires
        w <= 9,
        f < pow10(w as int),
    ensures
        final(out)@ == old(out)@ + pad_digits(f as int, w as int),
    decreases w,
{
    if w == 0 {
        proof {
            assert(pad_digits(f as int, 0) =~= Seq::<char>::empty());
            assert(out@ =~= out@ + pad_digits(f as int, 0));
        }
    } else {
        proof {
            assert(pow10(w as int) == 10 * pow10(w as int - 1));
        }
        write_pad(out, f / 10, w - 1);
        out.append(digit_str(f % 10));
        proof {
            assert(pad_digits(f as int, w as int) =~= pad_digits(f as int / 10, w as int - 1)
                + seq![digit_char(f as int % 10)]);
            assert(out@ =~= old(out)@ + pad_digits(f as int, w as int));
        }
    }
}

fn write_nano(out: &mut String, v: i64)
    ensures
        final(out)@ == old(out)@ + enc_nano(v),
{
    let ghost start = out@;
    let a: u64 = if v >= 0 {
        v as u64
    } else if v == i64::MIN {
        9223372036854775808u64
    } else {
        (-v) as u64
    };
    proof {
        lemma_pow10_table();
    }
    if v < 0 {
        out.push('-');
    }
    write_u64(out, a / 1000000000);
    out.push('.');
    write_pad(out, a % 1000000000, 9);
    proof {
        assert(out@ =~= start + enc_nano(v));
    }
}

fn write_str_chars(out: &mut String, s: &str, n: usize, i: usize)
    requires
        n == s@.len(),
        i <= n,
    ensures
        final(out)@ == old(out)@ + enc_chars(s@.skip(i as int)),
    decreases n - i,
{
    let ghost start = out@;
    if i == n {
        proof {
            assert(s@.skip(i as int) =~= Seq::<char>::empty());
            assert(out@ =~= start + enc_chars(s@.skip(i as int)));
        }
        return ;
    }
    let c = s.get_char(i);
    if c == '"' {
        proof {
            reveal_strlit("\\\"");
        }
        out.append("\\\"");
        proof {
            assert(out@ =~= start + esc_char(c));
        }
    } else if c == '\\' {
        proof {
            reveal_strlit("\\\\");
        }
        out.append("\\\\");
        proof {
            assert(out@ =~= start + esc_char(c));
        }
    } else if (c as u32) < 32 {
        let cu = c as u32;
        proof {
            assert(c as u32 as int == c as int);
            reveal_strlit("\\u00");
        }
        out.append("\\u00");
        let h1 = hex_str((cu / 16) as u64);
        out.append(h1);
        let h2 = hex_str((cu % 16) as u64);
        out.append(h2);
        proof {
            assert((cu / 16) as u64 as int == c as int / 16);
            assert((cu % 16) as u64 as int == c as int % 16);
            assert(out@ =~= start + esc_char(c));
        }
    } else {
        out.push(c);
        proof {
            assert(c as u32 as int == c as int);
            assert(out@ =~= start + esc_char(c));
        }
    }
    let ghost mid = out@;
    write_str_chars(out, s, n, i + 1);
    proof {
        assert(s@.skip(i as int)[0] == s@[i as int]);
        assert(s@.skip(i as int).skip(1) =~= s@.skip(i as int + 1));
        assert(enc_chars(s@.skip(i as int)) == esc_char(s@[i as int]) + enc_chars(
            s@.skip(i as int + 1),
        ));
        assert(out@ =~= start + enc_chars(s@.skip(i as int)));
    }
}

fn write_str(out: &mut String, s: &String)
    ensures
        final(out)@ == old(out)@ + enc_str(s@),
{
    let ghost start = out@;
    out.push('"');
    let st = s.as_str();
    let n = st.unicode_len();
    write_str_chars(out, st, n, 0);
    out.push('"');
    proof {
        assert(s@.skip(0) =~= s@);
        assert(out@ =~= start + enc_str(s@));
    }
}

fn write_opt_str(out: &mut String, o: &Option<String>)
    ensures
        final(out)@ == old(out)@ + enc_opt_str(opt_string_view(o)),
{
    let ghost start = out@;
    match o {
        None => {
            out.append("null");
        },
        Some(s) => {
            write_str(out, s);
        },
    }
}

fn write_bool(out: &mut String, b: bool)
    ensures
        final(out)@ == old(out)@ + enc_bool(b),
{
    if b {
        out.append("true");
    } else {
        out.append("false");
    }
}

fn write_pos(out: &mut String, p: GeoPos)
    ensures
        final(out)@ == old(out)@ + enc_pos(p),
{
    let ghost start = out@;
    out.push('[');
    write_nano(out, p.lat_nanodeg);
    out.push(',');
    write_nano(out, p.lon_nanodeg);
    out.push(']');
    proof {
        assert(out@ =~= start + enc_pos(p));
    }
}

fn write_opt_pos(out: &mut String, o: &Option<GeoPos>)
    ensures
        final(out)@ == old(out)@ + enc_opt_pos(*o),
{
    match o {
        None => {
            out.append("null");
        },
        Some(p) => {
            write_pos(out, *p);
        },
    }
}

fn write_field_str(out: &mut String, lead: char, key: &str, s: &String)
    ensures
        final(out)@ == old(out)@ + enc_field(lead, key@, enc_str(s@)),
{
    let ghost start = out@;
    out.push(lead);
    out.append(key);
    out.push(':');
    write_str(out, s);
    proof {
        assert(out@ =~= start + enc_field(lead, key@, enc_str(s@)));
    }
}

fn write_field_opt_str(out: &mut String, lead: char, key: &str, o: &Option<String>)
    ensures
        final(out)@ == old(out)@ + enc_field(lead, key@, enc_opt_str(opt_string_view(o))),
{
    let ghost start = out@;
    out.push(lead);
    out.append(key);
    out.push(':');
    write_opt_str(out, o);
    proof {
        assert(out@ =~= start + enc_field(lead, key@, enc_opt_str(opt_string_view(o))));
    }
}

fn write_img(out: &mut String, v: &MapEntryImageSource)
    ensures
        final(out)@ == old(out)@ + enc_img(v@),
{
    let ghost start = out@;
    write_field_str(out, '{', "\"url\"", &v.url);
    write_field_opt_str(out, ',', "\"credit_url\"", &v.credit_url);
    write_field_opt_str(out, ',', "\"credit_text\"", &v.credit_text);
    out.push('}');
    proof {
        assert(out@ =~= start + enc_img(v@));
    }
}

fn write_opt_img(out: &mut String, o: &Option<MapEntryImageSource>)
    ensures
        final(out)@ == old(out)@ + enc_opt_img(opt_image_view(o)),
{
    match o {
        None => {
            out.append("null");
        },
        Some(v) => {
            write_img(out, v);
        },
    }
}

fn write_eid(out: &mut String, e: &ElementId)
    ensures
        final(out)@ == old(out)@ + enc_eid(e@),
{
    let ghost start = out@;
    match e {
        ElementId::Osm(id) => {
            out.push('{');
            out.append("\"Osm\"");
            out.push(':');
            write_u64(out, *id);
            out.push('}');
            proof {
                assert(out@ =~= start + enc_eid(e@));
            }
        },
        ElementId::Wikidata(w) => {
            out.push('{');
            out.append("\"Wikidata\"");
            out.push(':');
            write_str(out, w);
            out.push('}');
            proof {
                assert(out@ =~= start + enc_eid(e@));
            }
        },
    }
}

fn write_eids_items(out: &mut String, v: &Vec<ElementId>, i: usize)
    requires
        i < v.len(),
    ensures
        final(out)@ == old(out)@ + enc_eids_items(v.deep_view().skip(i as int)),
    decreases v.len() - i,
{
    let ghost start = out@;
    let ghost dv = v.deep_view();
    write_eid(out, &v[i]);
    proof {
        assert(v[i as int].deep_view() == dv[i as int]);
        assert(dv.skip(i as int)[0] == dv[i as int]);
    }
    if i + 1 < v.len() {
        out.push(',');
        write_eids_items(out, v, i + 1);
        proof {
            assert(dv.skip(i as int).skip(1) =~= dv.skip(i as int + 1));
            assert(dv.skip(i as int).len() >= 2);
            assert(enc_eids_items(dv.skip(i as int)) == enc_eid(dv[i as int]) + (seq![',']
                + enc_eids_items(dv.skip(i as int + 1))));
            assert(out@ =~= start + enc_eids_items(dv.skip(i as int)));
        }
    } else {
        proof {
            assert(dv.skip(i as int).len() == 1);
            assert(enc_eids_items(dv.skip(i as int)) == enc_eid(dv[i as int]));
            assert(out@ =~= start + enc_eids_items(dv.skip(i as int)));
        }
    }
}

fn write_eids(out: &mut String, v: &Vec<ElementId>)
    ensures
        final(out)@ == old(out)@ + enc_eids(v.deep_view()),
{
    let ghost start = out@;
    let ghost dv = v.deep_view();
    out.push('[');
    if v.len() > 0 {
        write_eids_items(out, v, 0);
        proof {
            assert(dv.skip(0) =~= dv);
        }
    } else {
        proof {
            assert(dv.len() == 0);
            assert(enc_eids_items(dv) =~= Seq::<char>::empty());
        }
    }
    out.push(']');
    proof {
        assert(out@ =~= start + enc_eids(dv));
    }
}

fn write_field_opt_pos(out: &mut String, lead: char, key: &str, o: &Option<GeoPos>)
    ensures
        final(out)@ == old(out)@ + enc_field(lead, key@, enc_opt_pos(*o)),
{
    let ghost start = out@;
    out.push(lead);
    out.append(key);
    out.push(':');
    write_opt_pos(out, o);
    proof {
        assert(out@ =~= start + enc_field(lead, key@, enc_opt_pos(*o)));
    }
}

fn write_field_opt_img(out: &mut String, lead: char, key: &str, o: &Option<MapEntryImageSource>)
    ensures
        final(out)@ == old(out)@ + enc_field(lead, key@, enc_opt_img(opt_image_view(o))),
{
    let ghost start = out@;
    out.push(lead);
    out.append(key);
    out.push(':');
    write_opt_img(out, o);
    proof {
        assert(out@ =~= start + enc_field(lead, key@, enc_opt_img(opt_image_view(o))));
    }
}

fn write_field_bool(out: &mut String, lead: char, key: &str, b: bool)
    ensures
        final(out)@ == old(out)@ + enc_field(lead, key@, enc_bool(b)),
{
    let ghost start = out@;
    out.push(lead);
    out.append(key);
    out.push(':');
    write_bool(out, b);
    proof {
        assert(out@ =~= start + enc_field(lead, key@, enc_bool(b)));
    }
}

fn write_field_eids(out: &mut String, lead: char, key: &str, v: &Vec<ElementId>)
    ensures
        final(out)@ == old(out)@ + enc_field(lead, key@, enc_eids(v.deep_view())),
{
    let ghost start = out@;
    out.push(lead);
    out.append(key);
    out.push(':');
    write_eids(out, v);
    proof {
        assert(out@ =~= start + enc_field(lead, key@, enc_eids(v.deep_view())));
    }
}

/// Append the canonical JSON of one record.
#[verifier::rlimit(100)]
fn write_record(out: &mut String, e: &MapEntry)
    ensures
        final(out)@ == old(out)@ + enc_record(e@),
{
    let ghost start = out@;
    write_field_opt_pos(out, '{', "\"pos\"", &e.pos);
    let ghost s1 = out@;
    write_field_opt_str(out, ',', "\"name\"", &e.name);
    let ghost s2 = out@;
    write_field_opt_str(out, ',', "\"location_name\"", &e.location_name);
    let ghost s3 = out@;
    write_field_opt_img(out, ',', "\"image\"", &e.image);
    let ghost s4 = out@;
    write_field_opt_str(out, ',', "\"source_url\"", &e.source_url);
    let ghost s5 = out@;
    write_field_bool(out, ',', "\"is_in_exhibit\"", e.is_in_exhibit);
    let ghost s6 = out@;
    write_field_opt_str(out, ',', "\"nature\"", &e.nature);
    let ghost s7 = out@;
    write_field_eids(out, ',', "\"element_ids\"", &e.element_ids);
    let ghost s8 = out@;
    out.push('}');
    proof {
        let p1 = enc_field('{', "\"pos\""@, enc_opt_pos(e@.pos));
        let p2 = enc_field(',', "\"name\""@, enc_opt_str(e@.name));
        let p3 = enc_field(',', "\"location_name\""@, enc_opt_str(e@.location_name));
        let p4 = enc_field(',', "\"image\""@, enc_opt_img(e@.image));
        let p5 = enc_field(',', "\"source_url\""@, enc_opt_str(e@.source_url));
        let p6 = enc_field(',', "\"is_in_exhibit\""@, enc_bool(e@.is_in_exhibit));
        let p7 = enc_field(',', "\"nature\""@, enc_opt_str(e@.nature));
        let p8 = enc_field(',', "\"element_ids\""@, enc_eids(e@.element_ids));
        let p9: Seq<char> = seq!['}'];
        let t9 = p9;
        let t8 = p8 + t9;
        let t7 = p7 + t8;
        let t6 = p6 + t7;
        let t5 = p5 + t6;
        let t4 = p4 + t5;
        let t3 = p3 + t4;
        let t2 = p2 + t3;
        let t1 = p1 + t2;
        assert(out@ == s8 + t9);
        assert(s8 + t9 =~= s7 + t8);
        assert(s7 + t8 =~= s6 + t7);
        assert(s6 + t7 =~= s5 + t6);
        assert(s5 + t6 =~= s4 + t5);
        assert(s4 + t5 =~= s3 + t4);
        assert(s3 + t4 =~= s2 + t3);
        assert(s2 + t3 =~= s1 + t2);
        assert(s1 + t2 =~= start + t1);
        assert(enc_record(e@) == t1) by {
            reveal(enc_record);
        }
        assert(out@ == start + enc_record(e@));
    }
}

/// The canonical JSON of one record, on its own.
pub fn encode_entry(e: &MapEntry) -> (r: String)
    ensures
        r@ == enc_record(e@),
{
    let mut out = String::new();
    write_record(&mut out, e);
    proof {
        assert(out@ =~= enc_record(e@));
    }
    out
}

#[verifier::rlimit(100)]
fn write_entries_items(out: &mut String, v: &Vec<MapEntry>, i: usize)
    requires
        i < v.len(),
    ensures
        final(out)@ == old(out)@ + enc_entries_items(v.deep_view().skip(i as int)),
    decreases v.len() - i,
{
    let ghost start = out@;
    let ghost dv = v.deep_view();
    write_record(out, &v[i]);
    proof {
        assert(v[i as int].deep_view() == dv[i as int]);
        assert(dv.skip(i as int)[0] == dv[i as int]);
    }
    if i + 1 < v.len() {
        out.push(',');
        out.push('\n');
        write_entries_items(out, v, i + 1);
        proof {
            assert(dv.skip(i as int).skip(1) =~= dv.skip(i as int + 1));
            assert(dv.skip(i as int).len() >= 2);
            assert(enc_entries_items(dv.skip(i as int)) == enc_record(dv[i as int]) + (seq![
                ',',
                '\n',
            ] + enc_entries_items(dv.skip(i as int + 1))));
            assert(out@ =~= start + enc_entries_items(dv.skip(i as int)));
        }
    } else {
        proof {
            assert(dv.skip(i as int).len() == 1);
            assert(enc_entries_items(dv.skip(i as int)) == enc_record(dv[i as int]));
            assert(out@ =~= start + enc_entries_items(dv.skip(i as int)));
        }
    }
}

/// The canonical JSON of a record list: one record per line inside the
/// array; the empty list is the empty array.
pub fn encode_entries(v: &Vec<MapEntry>) -> (r: String)
    ensures
        r@ == enc_entries(v.deep_view()),
{
    let mut out = String::new();
    let ghost dv = v.deep_view();
    out.push('[');
    if v.len() > 0 {
        write_entries_items(&mut out, v, 0);
        proof {
            assert(dv.skip(0) =~= dv);
        }
    } else {
        proof {
            assert(dv.len() == 0);
            assert(enc_entries_items(dv) =~= Seq::<char>::empty());
        }
    }
    out.push(']');
    proof {
        assert(out@ =~= enc_entries(dv));
    }
    out
}

/// The canonical JSON of the private refresh metadata.
pub fn encode_private(o: &Option<u64>) -> (r: String)
    ensures
        r@ == enc_private(*o),
{
    let mut out = String::new();
    out.push('{');
    out.append("\"last_updated\"");
    out.push(':');
    match o {
        None => {
            out.append("null");
        },
        Some(v) => {
            write_u64(&mut out, *v);
        },
    }
    out.push('}');
    proof {
        assert(out@ =~= enc_private(*o));
    }
    out
}

} // verus!
