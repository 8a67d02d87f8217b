//! The Wikidata source: the shapes its query answers take, and the pure
//! work of turning one answer row into a record. Fetching the answer over
//! the network is the calling process's part; everything that decides or
//! computes on the answer text is here.
use vstd::prelude::*;
use crate::codec::is_digit;
use crate::codec::digit_val;
use crate::codec::pow10;
use crate::codec::dec_frac_run;
use crate::codec::parse_frac_run;
use crate::ElementId;
use crate::ElementIdView;
use crate::map_entry::GeoPos;
use crate::map_entry::ImageSourceView;
use crate::map_entry::MapEntry;
use crate::map_entry::MapEntryImageSource;
use crate::map_entry::MapEntryView;
use crate::record_set::RecordSet;

verus! {

/// A maximal digit run from `i`: its value and where it ended. Stops at
/// the first non-digit without consuming it; needs at least one digit;
/// gives up on a value too large for a coordinate.
pub open spec fn dec_digit_run(s: Seq<char>, i: int, acc: u64, seen: bool) -> Option<(u64, int)>
    decreases s.len() - i,
{
    if i < 0 {
        None
    } else if i >= s.len() || !is_digit(s[i]) {
        if seen {
            Some((acc, i))
        } else {
            None
        }
    } else if acc * 10 + digit_val(s[i]) > 9223372036854775807int {
        None
    } else {
        dec_digit_run(s, i + 1, (acc * 10 + digit_val(s[i])) as u64, true)
    }
}

fn parse_digit_run(s: &str, n: usize, i: usize, acc: u64, seen: bool) -> (r: Option<(u64, usize)>)
    requires
        n == s@.len(),
        i <= n,
    ensures
        r is None ==> dec_digit_run(s@, i as int, acc, seen) is None,
        r matches Some((v, j)) ==> dec_digit_run(s@, i as int, acc, seen) == Some((v, j as int))
            && i <= j <= n,
    decreases n - i,
{
    if i == n {
        if seen {
            return Some((acc, i));
        }
        return None;
    }
    let c = s.get_char(i);
    let cu = c as u32;
    if 48 <= cu && cu <= 57 {
        let d: u64 = (cu - 48) as u64;
        let big: u128 = acc as u128 * 10 + d as u128;
        if big > i64::MAX as u128 {
            None
        } else {
            parse_digit_run(s, n, i + 1, big as u64, true)
        }
    } else {
        if seen {
            Some((acc, i))
        } else {
            None
        }
    }
}

/// A signed decimal degree value as nanodegrees: an optional sign, digits,
/// then optionally a point and fractional digits.
pub open spec fn dec_signed_nanodeg(s: Seq<char>, i: int) -> Option<(i64, int)> {
    if i < 0 || i >= s.len() {
        None
    } else {
        let negative = s[i] == '-';
        let i1: int = if s[i] == '-' || s[i] == '+' {
            i + 1
        } else {
            i
        };
        match dec_digit_run(s, i1, 0, false) {
            None => None,
            Some((ipart, j)) => {
                let (nanos, j2): (u64, int) = if j < s.len() && s[j] == '.' {
                    dec_frac_run(s, j + 1, 0, 0)
                } else {
                    (0u64, j)
                };
                let total = ipart * 1000000000 + nanos;
                if total > i64::MAX {
                    None
                } else if negative {
                    Some(((-total) as i64, j2))
                } else {
                    Some((total as i64, j2))
                }
            },
        }
    }
}

pub fn parse_signed_nanodeg(s: &str, n: usize, i: usize) -> (r: Option<(i64, usize)>)
    requires
        n == s@.len(),
        i <= n,
    ensures
        r is None ==> dec_signed_nanodeg(s@, i as int) is None,
        r matches Some((v, j)) ==> dec_signed_nanodeg(s@, i as int) == Some((v, j as int)) && i
            <= j <= n,
{
    if i == n {
        return None;
    }
    let c = s.get_char(i);
    let negative = c == '-';
    let i1: usize = if c == '-' || c == '+' {
        i + 1
    } else {
        i
    };
    match parse_digit_run(s, n, i1, 0, false) {
        None => None,
        Some((ipart, j)) => {
            let (nanos, j2): (u64, usize) = if j < n && s.get_char(j) == '.' {
                parse_frac_run(s, n, j + 1, 0, 0)
            } else {
                (0, j)
            };
            let total: u128 = ipart as u128 * 1000000000 + nanos as u128;
            if total > i64::MAX as u128 {
                None
            } else {
                let t = total as i64;
                if negative {
                    Some((-t, j2))
                } else {
                    Some((t, j2))
                }
            }
        },
    }
}


/// The six characters that open a WKT point literal.
pub open spec fn point_at(s: Seq<char>, i: int) -> bool {
    &&& 0 <= i
    &&& i + 6 <= s.len()
    &&& s[i] == 'P'
    &&& s[i + 1] == 'o'
    &&& s[i + 2] == 'i'
    &&& s[i + 3] == 'n'
    &&& s[i + 4] == 't'
    &&& s[i + 5] == '('
}

pub open spec fn find_point(s: Seq<char>, i: int) -> Option<int>
    decreases s.len() - i,
{
    if i < 0 || i + 6 > s.len() {
        None
    } else if point_at(s, i) {
        Some(i)
    } else {
        find_point(s, i + 1)
    }
}

/// The position a WKT point literal carries, as nanodegrees: after the
/// first "Point(" come the longitude and the latitude, in that unusual
/// order, separated by one space and closed by a parenthesis.
pub open spec fn dec_point(s: Seq<char>) -> Option<GeoPos> {
    match find_point(s, 0) {
        None => None,
        Some(p) => match dec_signed_nanodeg(s, p + 6) {
            None => None,
            Some((lon, j)) => if j < s.len() && s[j] == ' ' {
                match dec_signed_nanodeg(s, j + 1) {
            None => None,
                    Some((lat, j2)) => if j2 < s.len() && s[j2] == ')' {
                        Some(GeoPos { lat_nanodeg: lat, lon_nanodeg: lon })
                    } else {
                        None
                    },
                }
            } else {
                None
            },
        },
    }
}

fn find_point_exec(s: &str, n: usize, i: usize) -> (r: Option<usize>)
    requires
        n == s@.len(),
        i <= n,
    ensures
        r is None ==> find_point(s@, i as int) is None,
        r matches Some(p) ==> find_point(s@, i as int) == Some(p as int) && i <= p && p + 6
            <= n,
    decreases n - i,
{
    if n - i < 6 {
        return None;
    }
    if s.get_char(i) == 'P' && s.get_char(i + 1) == 'o' && s.get_char(i + 2) == 'i'
        && s.get_char(i + 3) == 'n' && s.get_char(i + 4) == 't' && s.get_char(i + 5) == '(' {
        Some(i)
    } else {
        find_point_exec(s, n, i + 1)
    }
}

/// Read the position out of a WKT point literal, if the text holds one.
pub fn parse_wgs84_point(s: &str) -> (r: Option<GeoPos>)
    ensures
        r == dec_point(s@),
{
    let n = s.unicode_len();
    match find_point_exec(s, n, 0) {
        None => None,
        Some(p) => match parse_signed_nanodeg(s, n, p + 6) {
            None => None,
            Some((lon, j)) => {
                if j < n && s.get_char(j) == ' ' {
                    match parse_signed_nanodeg(s, n, j + 1) {
                        None => None,
                        Some((lat, j2)) => {
                            if j2 < n && s.get_char(j2) == ')' {
                                Some(GeoPos { lat_nanodeg: lat, lon_nanodeg: lon })
                            } else {
                                None
                            }
                        },
                    }
                } else {
                    None
                }
            },
        },
    }
}

/// The lower-cased form of a text.
pub uninterp spec fn lower_of(s: Seq<char>) -> Seq<char>;

/// Relies on str::to_lowercase: the result depends on the characters
/// alone.
#[verifier::external_body]
fn lowercase(s: &str) -> (r: String)
    ensures
        r@ == lower_of(s@),
{
    s.to_lowercase()
}

/// One value in a query answer row.
#[derive(Debug, Clone)]
pub struct WikidataValue {
    pub value: Option<String>,
}

pub open spec fn wv_view(v: &WikidataValue) -> Option<Seq<char>> {
    crate::map_entry::opt_string_view(&v.value)
}

pub open spec fn field_value(o: &Option<WikidataValue>) -> Option<Seq<char>> {
    match o {
        Some(v) => wv_view(v),
        None => None,
    }
}

impl WikidataValue {
    /// The value holds the word "false", in any casing.
    pub fn is_false(&self) -> (r: bool)
        ensures
            r == (match wv_view(self) {
                Some(v) => lower_of(v) == "false"@,
                None => false,
            }),
    {
        match &self.value {
            Some(x) => {
                let low = lowercase(x.as_str());
                let c = crate::order::str_cmp(low.as_str(), "false");
                proof {
                    crate::order::lemma_chars_cmp_eq(low@, "false"@);
                }
                c == 0
            },
            None => false,
        }
    }

    /// The value holds the word "true", in any casing.
    pub fn is_true(&self) -> (r: bool)
        ensures
            r == (match wv_view(self) {
                Some(v) => lower_of(v) == "true"@,
                None => false,
            }),
    {
        match &self.value {
            Some(x) => {
                let low = lowercase(x.as_str());
                let c = crate::order::str_cmp(low.as_str(), "true");
                proof {
                    crate::order::lemma_chars_cmp_eq(low@, "true"@);
                }
                c == 0
            },
            None => false,
        }
    }
}

/// One row of a query answer: every column the query can return.
#[allow(non_snake_case)]
#[derive(Debug, Clone)]
pub struct WikidataElement {
    pub item: Option<WikidataValue>,
    pub itemLabel: Option<WikidataValue>,
    pub coords: Option<WikidataValue>,
    pub coordsApproxP1_0: Option<WikidataValue>,
    pub coordsApproxP1_1: Option<WikidataValue>,
    pub coordsApproxP2_0: Option<WikidataValue>,
    pub coordsApproxC1_0_0: Option<WikidataValue>,
    pub coordsApproxC1_0_1: Option<WikidataValue>,
    pub image: Option<WikidataValue>,
    pub placeLabel: Option<WikidataValue>,
    pub natureLabel: Option<WikidataValue>,
    pub isInExhibit: Option<WikidataValue>,
}

/// The coordinate text a row carries: the exact coordinate first, then the
/// approximate ones, nearest relation first.
pub open spec fn coord_value_spec(e: &WikidataElement) -> Option<Seq<char>> {
    if field_value(&e.coords) is Some {
        field_value(&e.coords)
    } else if field_value(&e.coordsApproxP1_0) is Some {
        field_value(&e.coordsApproxP1_0)
    } else if field_value(&e.coordsApproxP2_0) is Some {
        field_value(&e.coordsApproxP2_0)
    } else if field_value(&e.coordsApproxP1_1) is Some {
        field_value(&e.coordsApproxP1_1)
    } else if field_value(&e.coordsApproxC1_0_0) is Some {
        field_value(&e.coordsApproxC1_0_0)
    } else {
        field_value(&e.coordsApproxC1_0_1)
    }
}

impl WikidataElement {
    /// The first coordinate text among the row's coordinate columns, in
    /// their preference order.
    pub fn get_coord_value(&self) -> (r: Option<&String>)
        ensures
            crate::map_entry::opt_string_view(&(match r {
                Some(s) => Some(*s),
                None => None,
            })) == coord_value_spec(self),
    {
        if let Some(v) = &self.coords {
            if let Some(c) = &v.value {
                return Some(c);
            }
        }
        if let Some(v) = &self.coordsApproxP1_0 {
            if let Some(c) = &v.value {
                return Some(c);
            }
        }
        if let Some(v) = &self.coordsApproxP2_0 {
            if let Some(c) = &v.value {
                return Some(c);
            }
        }
        if let Some(v) = &self.coordsApproxP1_1 {
            if let Some(c) = &v.value {
                return Some(c);
            }
        }
        if let Some(v) = &self.coordsApproxC1_0_0 {
            if let Some(c) = &v.value {
                return Some(c);
            }
        }
        if let Some(v) = &self.coordsApproxC1_0_1 {
            if let Some(c) = &v.value {
                return Some(c);
            }
        }
        None
    }

    /// Whether the row's position is the entity's own, not one borrowed
    /// from a containing place.
    pub fn is_direct_location(&self) -> (r: bool)
        ensures
            r == (field_value(&self.coords) is Some),
    {
        match &self.coords {
            Some(v) => v.value.is_some(),
            None => false,
        }
    }
}

/// A whole query answer.
#[derive(Debug, Clone)]
pub struct WikidataDocumentResult {
    pub bindings: Vec<WikidataElement>,
}

#[derive(Debug, Clone)]
pub struct WikidataDocument {
    pub results: WikidataDocumentResult,
}

impl WikidataDocument {
    pub fn get_elements(&self) -> (r: &Vec<WikidataElement>)
        ensures
            r == &self.results.bindings,
    {
        &self.results.bindings
    }
}

/// Why a query answer row was refused.
#[derive(Debug)]
pub enum WikidataError {
    /// A row carried no item address; the query itself must be wrong.
    MissingItemUrl,
}

/// The maximal suffix with no '/' in it: what follows the last '/', or the
/// whole text if there is none.
pub open spec fn after_last_slash(s: Seq<char>) -> Seq<char>
    decreases s.len(),
{
    if s.len() == 0 {
        s
    } else if s.last() == '/' {
        Seq::<char>::empty()
    } else {
        after_last_slash(s.drop_last()).push(s.last())
    }
}

/// The identifier at the end of an item address.
pub fn qid_from_item_url(s: &str) -> (r: String)
    ensures
        r@ == after_last_slash(s@),
{
    let n = s.unicode_len();
    let mut k: usize = n;
    while k > 0
        invariant
            n == s@.len(),
            k <= n,
            forall|w: int| k <= w < n ==> s@[w] != '/',
        ensures
            n == s@.len(),
            k <= n,
            forall|w: int| k <= w < n ==> s@[w] != '/',
            k > 0 ==> s@[k - 1] == '/',
        decreases k,
    {
        if s.get_char(k - 1) == '/' {
            break;
        }
        k = k - 1;
    }
    proof {
        lemma_after_last_slash(s@, k as int);
    }
    let tail = s.substring_char(k, n);
    tail.to_owned()
}

proof fn lemma_after_last_slash(s: Seq<char>, k: int)
    requires
        0 <= k <= s.len(),
        forall|w: int| k <= w < s.len() ==> s[w] != '/',
        k > 0 ==> s[k - 1] == '/',
    ensures
        after_last_slash(s) == s.subrange(k, s.len() as int),
    decreases s.len() - k,
{
    if k == s.len() {
        if k > 0 {
            assert(after_last_slash(s) =~= Seq::<char>::empty());
            assert(s.subrange(k, s.len() as int) =~= Seq::<char>::empty());
        } else {
            assert(s.len() == 0);
            assert(s.subrange(0, 0) =~= s);
        }
    } else {
        assert(s.last() != '/');
        let d = s.drop_last();
        assert(forall|w: int| k <= w < d.len() ==> d[w] == s[w]);
        if k > 0 {
            assert(d[k - 1] == s[k - 1]);
        }
        lemma_after_last_slash(d, k);
        assert(after_last_slash(s) == after_last_slash(d).push(s.last()));
        assert(d.subrange(k, d.len() as int).push(s.last()) =~= s.subrange(
            k,
            s.len() as int,
        ));
    }
}


/// The file page on the commons host for an image address, if the address
/// parses and has a path.
pub open spec fn commons_url_spec(u: Seq<char>) -> Option<Seq<char>> {
    match crate::url_util::url_last_segment_of(u) {
        Some(f) => Some("https://commons.wikimedia.org/wiki/File:"@ + f),
        None => None,
    }
}

/// The record one answer row stands for, or nothing when the row carries
/// no item address. Position, labels, image and credits, the source
/// address, the exhibit flag and the item identifier all come from the
/// row's columns.
pub open spec fn element_to_entry_spec(e: &WikidataElement) -> Option<MapEntryView> {
    match field_value(&e.item) {
        None => None,
        Some(item_url) => Some(
            MapEntryView {
                pos: match coord_value_spec(e) {
                    Some(c) => dec_point(c),
                    None => None,
                },
                name: field_value(&e.itemLabel),
                location_name: field_value(&e.placeLabel),
                image: match field_value(&e.image) {
                    Some(u) => Some(
                        ImageSourceView {
                            url: u,
                            credit_url: commons_url_spec(u),
                            credit_text: Some("from Wikimedia Commons"@),
                        },
                    ),
                    None => None,
                },
                source_url: Some(item_url),
                is_in_exhibit: (match field_value(&e.isInExhibit) {
                    Some(v) => lower_of(v) == "true"@,
                    None => false,
                }) || !(field_value(&e.coords) is Some),
                nature: field_value(&e.natureLabel),
                element_ids: seq![ElementIdView::Wikidata(after_last_slash(item_url))],
            },
        ),
    }
}

fn clone_field(o: &Option<WikidataValue>) -> (r: Option<String>)
    ensures
        crate::map_entry::opt_string_view(&r) == field_value(o),
{
    match o {
        Some(v) => match &v.value {
            Some(s) => Some(s.clone()),
            None => None,
        },
        None => None,
    }
}

/// Turn one answer row into a record; a row with no item address is
/// refused, exactly as the specification of the row says.
pub fn element_to_map_entry(e: &WikidataElement) -> (r: Result<MapEntry, WikidataError>)
    ensures
        r matches Ok(m) ==> element_to_entry_spec(e) == Some(m@),
        r is Err <==> element_to_entry_spec(e) is None,
{
    let item_url = match &e.item {
        Some(v) => match &v.value {
            Some(u) => u.clone(),
            None => {
                return Err(WikidataError::MissingItemUrl);
            },
        },
        None => {
            return Err(WikidataError::MissingItemUrl);
        },
    };
    let pos = match e.get_coord_value() {
        Some(c) => parse_wgs84_point(c.as_str()),
        None => None,
    };
    let image = match &e.image {
        Some(v) => match &v.value {
            Some(u) => {
                let credit_url = match crate::url_util::url_last_path_segment(u.as_str()) {
                    Some(f) => {
                        let mut cu = String::from_str(
                            "https://commons.wikimedia.org/wiki/File:",
                        );
                        cu.append(f.as_str());
                        Some(cu)
                    },
                    None => None,
                };
                Some(
                    MapEntryImageSource {
                        url: u.clone(),
                        credit_url,
                        credit_text: Some(String::from_str("from Wikimedia Commons")),
                    },
                )
            },
            None => None,
        },
        None => None,
    };
    let in_exhibit_flag = match &e.isInExhibit {
        Some(v) => v.is_true(),
        None => false,
    };
    let is_in_exhibit = in_exhibit_flag || !e.is_direct_location();
    let qid = qid_from_item_url(item_url.as_str());
    let mut element_ids: Vec<ElementId> = Vec::new();
    element_ids.push(ElementId::Wikidata(qid));
    let m = MapEntry {
        pos,
        name: clone_field(&e.itemLabel),
        location_name: clone_field(&e.placeLabel),
        image,
        source_url: Some(item_url),
        is_in_exhibit,
        nature: clone_field(&e.natureLabel),
        element_ids,
    };
    proof {
        assert(m@.element_ids =~= seq![
            ElementIdView::Wikidata(after_last_slash(m@.source_url->0)),
        ]);
        assert(element_to_entry_spec(e) == Some(m@));
    }
    Ok(m)
}

/// Every answer row turned into a record and collected into the ordered
/// set: duplicates collapse, order is the record order. Refused exactly
/// when some row carries no item address.
pub fn elements_to_record_set(elements: &Vec<WikidataElement>) -> (r: Result<
    RecordSet,
    WikidataError,
>)
    ensures
        r is Ok <==> (forall|k: int|
            0 <= k < elements@.len() ==> element_to_entry_spec(&elements@[k]) is Some),
        r matches Ok(rs) ==> rs.inv() && (forall|x: MapEntryView|
            rs@.contains(x) <==> exists|k: int|
                0 <= k < elements@.len() && element_to_entry_spec(&elements@[k]) == Some(x)),
{
    let mut converted: Vec<MapEntry> = Vec::new();
    let mut i: usize = 0;
    while i < elements.len()
        invariant
            i <= elements@.len(),
            converted@.len() == i as int,
            forall|k: int| 0 <= k < i ==> element_to_entry_spec(&elements@[k]) == Some(
                (#[trigger] converted.deep_view()[k]),
            ),
        decreases elements@.len() - i,
    {
        let ghost prev_dv = converted.deep_view();
        let ghost prev_seq = converted@;
        let m = match element_to_map_entry(&elements[i]) {
            Ok(m) => m,
            Err(err) => {
                return Err(err);
            },
        };
        let ghost mv = m@;
        converted.push(m);
        i = i + 1;
        proof {
            assert(converted@ == prev_seq.push(converted@[i - 1]));
            assert forall|k: int| 0 <= k < i implies element_to_entry_spec(&elements@[k])
                == Some((#[trigger] converted.deep_view()[k])) by {
                if k < i - 1 {
                    assert(converted@[k] == prev_seq[k]);
                    assert(prev_dv[k] == converted.deep_view()[k]);
                } else {
                    assert(converted@[k].deep_view() == mv);
                }
            }
        }
    }
    let ghost dv = converted.deep_view();
    proof {
        assert forall|k: int| 0 <= k < elements@.len() implies element_to_entry_spec(
            &elements@[k],
        ) is Some by {
            assert(element_to_entry_spec(&elements@[k]) == Some(dv[k]));
        }
    }
    let rs = RecordSet::from_records(converted);
    proof {
        assert forall|x: MapEntryView| rs@.contains(x) <==> exists|k: int|
            0 <= k < elements@.len() && element_to_entry_spec(&elements@[k]) == Some(x) by {
            if rs@.contains(x) {
                assert(dv.contains(x));
                let w = choose|w: int| 0 <= w < dv.len() && dv[w] == x;
                assert(element_to_entry_spec(&elements@[w]) == Some(x));
            }
            if exists|k: int|
                0 <= k < elements@.len() && element_to_entry_spec(&elements@[k]) == Some(x) {
                let w = choose|w: int|
                    0 <= w < elements@.len() && element_to_entry_spec(&elements@[w]) == Some(
                        x,
                    );
                assert(dv[w] == x);
                assert(dv.contains(x));
            }
        }
    }
    Ok(rs)
}

/// The Wikidata source's configuration: the query it sends and the title
/// it is known by.
#[derive(Debug)]
pub struct FetchDataWikidataSparql {
    pub query: String,
    pub title: String,
}

impl FetchDataWikidataSparql {
    /// A source for one query. Nothing about a query can be refused here,
    /// so this always succeeds.
    pub fn new(query: String, title: String) -> (r: Result<Self, WikidataError>)
        ensures
            r is Ok,
            r matches Ok(f) ==> f.query@ == query@ && f.title@ == title@,
    {
        Ok(FetchDataWikidataSparql { query, title })
    }

    /// How long this source waits between refreshes, in TAI nanoseconds:
    /// three hours.
    pub fn retry_every_nanos(&self) -> (r: u64)
        ensures
            r == 10800000000000u64,
    {
        10800000000000u64
    }

    pub fn title(&self) -> (r: &String)
        ensures
            r@ == self.title@,
    {
        &self.title
    }
}

} // verus!
