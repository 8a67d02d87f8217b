//! User corrections layered onto fetched records at merge time, keyed by
//! source-element identity. The table is read-only at runtime; applying it
//! never touches stored records, only the merged copies.
use vstd::prelude::*;
use crate::ElementId;
use crate::ElementIdView;
use crate::map_entry::ImageSourceView;
use crate::map_entry::MapEntry;
use crate::map_entry::MapEntryImageSource;
use crate::map_entry::MapEntryView;
use crate::map_entry::opt_string_view;

verus! {

/// One correction: an optional local image replacement and optional image
/// credit fields.
#[derive(Debug)]
pub struct OverrideEntry {
    pub local_image: Option<String>,
    pub image_source_url: Option<String>,
    pub image_source_text: Option<String>,
}

/// Mathematical model of `OverrideEntry`.
pub ghost struct OverrideEntryView {
    pub local_image: Option<Seq<char>>,
    pub image_source_url: Option<Seq<char>>,
    pub image_source_text: Option<Seq<char>>,
}

impl View for OverrideEntry {
    type V = OverrideEntryView;

    open spec fn view(&self) -> OverrideEntryView {
        OverrideEntryView {
            local_image: opt_string_view(&self.local_image),
            image_source_url: opt_string_view(&self.image_source_url),
            image_source_text: opt_string_view(&self.image_source_text),
        }
    }
}

/// The override table: one lookup list per identity kind. The first entry
/// with a matching key wins.
#[derive(Debug)]
pub struct Overrides {
    pub osm: Vec<(u64, OverrideEntry)>,
    pub wikidata: Vec<(String, OverrideEntry)>,
}

/// Mathematical model of `Overrides`.
pub ghost struct OverridesView {
    pub osm: Seq<(u64, OverrideEntryView)>,
    pub wikidata: Seq<(Seq<char>, OverrideEntryView)>,
}

impl View for Overrides {
    type V = OverridesView;

    open spec fn view(&self) -> OverridesView {
        OverridesView {
            osm: Seq::new(self.osm@.len(), |i: int| (self.osm@[i].0, self.osm@[i].1@)),
            wikidata: Seq::new(
                self.wikidata@.len(),
                |i: int| (self.wikidata@[i].0@, self.wikidata@[i].1@),
            ),
        }
    }
}

pub open spec fn lookup_osm(s: Seq<(u64, OverrideEntryView)>, id: u64, i: int) -> Option<
    OverrideEntryView,
>
    decreases s.len() - i,
{
    if i < 0 || i >= s.len() {
        None
    } else if s[i].0 == id {
        Some(s[i].1)
    } else {
        lookup_osm(s, id, i + 1)
    }
}

pub open spec fn lookup_wikidata(
    s: Seq<(Seq<char>, OverrideEntryView)>,
    w: Seq<char>,
    i: int,
) -> Option<OverrideEntryView>
    decreases s.len() - i,
{
    if i < 0 || i >= s.len() {
        None
    } else if s[i].0 == w {
        Some(s[i].1)
    } else {
        lookup_wikidata(s, w, i + 1)
    }
}

/// The correction for one identity, if the table has one.
pub open spec fn get_override_spec(ov: OverridesView, e: ElementIdView) -> Option<
    OverrideEntryView,
> {
    match e {
        ElementIdView::Osm(id) => lookup_osm(ov.osm, id, 0),
        ElementIdView::Wikidata(w) => lookup_wikidata(ov.wikidata, w, 0),
    }
}

impl Overrides {
    /// The loaded table's well-formedness: each identity appears once per
    /// lookup list, as in the maps the configuration is read from. Lookups
    /// take the first match, so a malformed table still behaves
    /// deterministically.
    pub open spec fn inv(&self) -> bool {
        &&& forall|k1: int, k2: int|
            0 <= k1 < k2 < self@.osm.len() ==> (#[trigger] self@.osm[k1]).0 != (
            #[trigger] self@.osm[k2]).0
        &&& forall|k1: int, k2: int|
            0 <= k1 < k2 < self@.wikidata.len() ==> (#[trigger] self@.wikidata[k1]).0 != (
            #[trigger] self@.wikidata[k2]).0
    }

    fn get_osm(&self, id: u64, i: usize) -> (r: Option<&OverrideEntry>)
        requires
            i <= self.osm@.len(),
        ensures
            r is None ==> lookup_osm(self@.osm, id, i as int) is None,
            r matches Some(o) ==> lookup_osm(self@.osm, id, i as int) == Some(o@),
        decreases self.osm@.len() - i,
    {
        if i == self.osm.len() {
            None
        } else if self.osm[i].0 == id {
            Some(&self.osm[i].1)
        } else {
            self.get_osm(id, i + 1)
        }
    }

    fn get_wikidata(&self, w: &String, i: usize) -> (r: Option<&OverrideEntry>)
        requires
            i <= self.wikidata@.len(),
        ensures
            r is None ==> lookup_wikidata(self@.wikidata, w@, i as int) is None,
            r matches Some(o) ==> lookup_wikidata(self@.wikidata, w@, i as int) == Some(o@),
        decreases self.wikidata@.len() - i,
    {
        if i == self.wikidata.len() {
            None
        } else if self.wikidata[i].0 == *w {
            Some(&self.wikidata[i].1)
        } else {
            self.get_wikidata(w, i + 1)
        }
    }

    /// The correction for the given identity, if any.
    pub fn get_override(&self, element_id: &ElementId) -> (r: Option<&OverrideEntry>)
        ensures
            r is None ==> get_override_spec(self@, element_id@) is None,
            r matches Some(o) ==> get_override_spec(self@, element_id@) == Some(o@),
    {
        match element_id {
            ElementId::Osm(id) => self.get_osm(*id, 0),
            ElementId::Wikidata(w) => self.get_wikidata(w, 0),
        }
    }
}

/// The first of two optional values that is present, if either is.
pub open spec fn or_opt(a: Option<Seq<char>>, b: Option<Seq<char>>) -> Option<Seq<char>> {
    if a is Some {
        a
    } else {
        b
    }
}

/// What one correction does to a record's image: a local image replaces it
/// wholesale; credit fields are then overridden where the correction has
/// them.
pub open spec fn override_image(o: OverrideEntryView, img: Option<ImageSourceView>) -> Option<
    ImageSourceView,
> {
    let base = match o.local_image {
        Some(li) => Some(
            ImageSourceView { url: "/images/"@ + li, credit_url: None, credit_text: None },
        ),
        None => img,
    };
    match base {
        Some(v) => Some(
            ImageSourceView {
                url: v.url,
                credit_url: or_opt(o.image_source_url, v.credit_url),
                credit_text: or_opt(o.image_source_text, v.credit_text),
            },
        ),
        None => None,
    }
}

/// One correction applied to a record: only the image can change.
pub open spec fn apply_override(o: OverrideEntryView, e: MapEntryView) -> MapEntryView {
    MapEntryView { image: override_image(o, e.image), ..e }
}

impl OverrideEntry {
    /// Apply this correction to a record in place.
    pub fn override_map_entry(&self, map_entry: &mut MapEntry)
        ensures
            final(map_entry)@ == apply_override(self@, old(map_entry)@),
    {
        if let Some(local_image) = &self.local_image {
            let mut url = String::from_str("/images/");
            url.append(local_image.as_str());
            map_entry.image = Some(
                MapEntryImageSource { url: url, credit_url: None, credit_text: None },
            );
        }
        match &mut map_entry.image {
            Some(image) => {
                if let Some(image_source_url) = &self.image_source_url {
                    image.credit_url = Some(image_source_url.clone());
                }
                if let Some(image_source_text) = &self.image_source_text {
                    image.credit_text = Some(image_source_text.clone());
                }
            },
            None => {},
        }
        proof {
            assert(final(map_entry)@ == apply_override(self@, old(map_entry)@));
        }
    }
}


/// The image-only effect of the correction for one identity.
pub open spec fn step_img(
    ov: OverridesView,
    id: ElementIdView,
    img: Option<ImageSourceView>,
) -> Option<ImageSourceView> {
    match get_override_spec(ov, id) {
        None => img,
        Some(o) => override_image(o, img),
    }
}

/// The image after the corrections for `ids[i..]` are applied in order.
pub open spec fn img_apply_ids(
    ov: OverridesView,
    ids: Seq<ElementIdView>,
    img: Option<ImageSourceView>,
    i: int,
) -> Option<ImageSourceView>
    decreases ids.len() - i,
{
    if i < 0 || i >= ids.len() {
        img
    } else {
        img_apply_ids(ov, ids, step_img(ov, ids[i], img), i + 1)
    }
}

/// One identity's correction applied to a record, when the table has one.
pub open spec fn apply_id(ov: OverridesView, id: ElementIdView, e: MapEntryView) -> MapEntryView {
    match get_override_spec(ov, id) {
        None => e,
        Some(o) => apply_override(o, e),
    }
}

pub open spec fn apply_ids(
    ov: OverridesView,
    ids: Seq<ElementIdView>,
    e: MapEntryView,
    i: int,
) -> MapEntryView
    decreases ids.len() - i,
{
    if i < 0 || i >= ids.len() {
        e
    } else {
        apply_ids(ov, ids, apply_id(ov, ids[i], e), i + 1)
    }
}

/// The override table applied to a record: each of the record's identities
/// is looked up in order and its correction, if any, applied.
pub open spec fn apply_overrides_spec(ov: OverridesView, e: MapEntryView) -> MapEntryView {
    apply_ids(ov, e.element_ids, e, 0)
}

/// Corrections touch only the image: everything else passes through.
proof fn lemma_apply_ids_image_only(
    ov: OverridesView,
    ids: Seq<ElementIdView>,
    e: MapEntryView,
    i: int,
)
    ensures
        apply_ids(ov, ids, e, i) == (MapEntryView {
            image: img_apply_ids(ov, ids, e.image, i),
            ..e
        }),
    decreases ids.len() - i,
{
    if i < 0 || i >= ids.len() {
        assert(apply_ids(ov, ids, e, i) == e);
        assert((MapEntryView { image: e.image, ..e }) == e);
    } else {
        lemma_apply_ids_image_only(ov, ids, apply_id(ov, ids[i], e), i + 1);
        assert(apply_id(ov, ids[i], e) == (MapEntryView {
            image: step_img(ov, ids[i], e.image),
            ..e
        }));
    }
}

/// Whether any identity in `ids[i..]` carries a local-image correction.
pub open spec fn has_local(ov: OverridesView, ids: Seq<ElementIdView>, i: int) -> bool
    decreases ids.len() - i,
{
    if i < 0 || i >= ids.len() {
        false
    } else {
        (match get_override_spec(ov, ids[i]) {
            Some(o) => o.local_image is Some,
            None => false,
        }) || has_local(ov, ids, i + 1)
    }
}

/// The last credit-url correction that `ids[i..]` will write, if any.
pub open spec fn last_url(ov: OverridesView, ids: Seq<ElementIdView>, i: int) -> Option<
    Seq<char>,
>
    decreases ids.len() - i,
{
    if i < 0 || i >= ids.len() {
        None
    } else {
        or_opt(
            last_url(ov, ids, i + 1),
            match get_override_spec(ov, ids[i]) {
                Some(o) => o.image_source_url,
                None => None,
            },
        )
    }
}

/// The last credit-text correction that `ids[i..]` will write, if any.
pub open spec fn last_text(ov: OverridesView, ids: Seq<ElementIdView>, i: int) -> Option<
    Seq<char>,
>
    decreases ids.len() - i,
{
    if i < 0 || i >= ids.len() {
        None
    } else {
        or_opt(
            last_text(ov, ids, i + 1),
            match get_override_spec(ov, ids[i]) {
                Some(o) => o.image_source_text,
                None => None,
            },
        )
    }
}

/// With a local-image correction in the suffix, the resulting image does
/// not depend on the image it started from.
proof fn lemma_local_constant(
    ov: OverridesView,
    ids: Seq<ElementIdView>,
    img1: Option<ImageSourceView>,
    img2: Option<ImageSourceView>,
    i: int,
)
    requires
        has_local(ov, ids, i),
    ensures
        img_apply_ids(ov, ids, img1, i) == img_apply_ids(ov, ids, img2, i),
    decreases ids.len() - i,
{
    let stepped = match get_override_spec(ov, ids[i]) {
        Some(o) => o.local_image is Some,
        None => false,
    };
    if stepped {
        assert(step_img(ov, ids[i], img1) == step_img(ov, ids[i], img2));
    } else {
        lemma_local_constant(ov, ids, step_img(ov, ids[i], img1), step_img(ov, ids[i], img2), i
            + 1);
    }
}

/// Without a local-image correction in the suffix, the suffix leaves an
/// absent image absent, keeps the image's own address, and sets the credit
/// fields to the last corrections that write them.
proof fn lemma_no_local_shape(
    ov: OverridesView,
    ids: Seq<ElementIdView>,
    img: Option<ImageSourceView>,
    i: int,
)
    requires
        !has_local(ov, ids, i),
    ensures
        img is None ==> img_apply_ids(ov, ids, img, i) is None,
        img matches Some(v) ==> img_apply_ids(ov, ids, img, i) == Some(
            ImageSourceView {
                url: v.url,
                credit_url: or_opt(last_url(ov, ids, i), v.credit_url),
                credit_text: or_opt(last_text(ov, ids, i), v.credit_text),
            },
        ),
    decreases ids.len() - i,
{
    if i < 0 || i >= ids.len() {
        match img {
            Some(v) => {
                assert(or_opt(last_url(ov, ids, i), v.credit_url) == v.credit_url);
            },
            None => {},
        }
    } else {
        let nxt = step_img(ov, ids[i], img);
        lemma_no_local_shape(ov, ids, nxt, i + 1);
        match img {
            None => {
                assert(nxt is None);
            },
            Some(v) => {
                match get_override_spec(ov, ids[i]) {
                    None => {
                        assert(nxt == img);
                    },
                    Some(o) => {
                        assert(o.local_image is None);
                        assert(nxt == Some(
                            ImageSourceView {
                                url: v.url,
                                credit_url: or_opt(o.image_source_url, v.credit_url),
                                credit_text: or_opt(o.image_source_text, v.credit_text),
                            },
                        ));
                    },
                }
            },
        }
    }
}

proof fn lemma_img_idempotent(
    ov: OverridesView,
    ids: Seq<ElementIdView>,
    img: Option<ImageSourceView>,
    i: int,
)
    requires
        0 <= i,
    ensures
        img_apply_ids(ov, ids, img_apply_ids(ov, ids, img, i), i) == img_apply_ids(
            ov,
            ids,
            img,
            i,
        ),
{
    if has_local(ov, ids, i) {
        lemma_local_constant(ov, ids, img_apply_ids(ov, ids, img, i), img, i);
    } else {
        lemma_no_local_shape(ov, ids, img, i);
        lemma_no_local_shape(ov, ids, img_apply_ids(ov, ids, img, i), i);
    }
}

/// Applying the override table twice to a record gives the same result as
/// applying it once.
pub proof fn lemma_override_apply_idempotent(ov: OverridesView, e: MapEntryView)
    ensures
        apply_overrides_spec(ov, apply_overrides_spec(ov, e)) == apply_overrides_spec(ov, e),
{
    let once = apply_overrides_spec(ov, e);
    lemma_apply_ids_image_only(ov, e.element_ids, e, 0);
    assert(once.element_ids == e.element_ids);
    lemma_apply_ids_image_only(ov, e.element_ids, once, 0);
    lemma_img_idempotent(ov, e.element_ids, e.image, 0);
}

impl Overrides {
    /// The override table applied to one record, returning the corrected
    /// copy; the record handed in stays as it was.
    pub fn apply_overrides(&self, e: &MapEntry) -> (r: MapEntry)
        ensures
            r@ == apply_overrides_spec(self@, e@),
    {
        let mut r = e.clone();
        let ids = crate::clone_element_ids(&e.element_ids);
        let ghost idsv = e@.element_ids;
        proof {
            assert(ids.deep_view() == idsv);
        }
        let mut i: usize = 0;
        while i < ids.len()
            invariant
                i <= ids@.len(),
                ids.deep_view() == idsv,
                ids@.len() == idsv.len(),
                apply_ids(self@, idsv, r@, i as int) == apply_ids(self@, idsv, e@, 0),
            decreases ids@.len() - i,
        {
            let ghost prev = r@;
            proof {
                assert(ids@[i as int].deep_view() == idsv[i as int]);
            }
            match self.get_override(&ids[i]) {
                Some(o) => {
                    o.override_map_entry(&mut r);
                    proof {
                        assert(r@ == apply_id(self@, idsv[i as int], prev));
                    }
                },
                None => {
                    proof {
                        assert(r@ == apply_id(self@, idsv[i as int], prev));
                    }
                },
            }
            i = i + 1;
        }
        proof {
            assert(apply_ids(self@, idsv, r@, idsv.len() as int) == r@);
        }
        r
    }
}


/// A correction with a local image, found for the one identity a record
/// carries, replaces the published copy's image wholesale: the local
/// address, and only the correction's own credit fields. The record the
/// table was applied to is handed back as a fresh copy, so the stored
/// record itself never changes.
pub proof fn lemma_local_image_override_shapes_the_copy(
    ov: OverridesView,
    e: MapEntryView,
    id: ElementIdView,
    o: OverrideEntryView,
    img: Seq<char>,
)
    requires
        e.element_ids == seq![id],
        get_override_spec(ov, id) == Some(o),
        o.local_image == Some(img),
    ensures
        apply_overrides_spec(ov, e).image == Some(
            ImageSourceView {
                url: "/images/"@ + img,
                credit_url: o.image_source_url,
                credit_text: o.image_source_text,
            },
        ),
        apply_overrides_spec(ov, e) == (MapEntryView {
            image: apply_overrides_spec(ov, e).image,
            ..e
        }),
{
    lemma_apply_ids_image_only(ov, e.element_ids, e, 0);
    assert(e.element_ids[0] == id);
    assert(img_apply_ids(ov, e.element_ids, e.image, 0) == img_apply_ids(
        ov,
        e.element_ids,
        step_img(ov, id, e.image),
        1,
    ));
    let stepped = step_img(ov, id, e.image);
    assert(stepped == Some(
        ImageSourceView {
            url: "/images/"@ + img,
            credit_url: or_opt(o.image_source_url, None),
            credit_text: or_opt(o.image_source_text, None),
        },
    ));
    assert(or_opt(o.image_source_url, None) == o.image_source_url);
    assert(or_opt(o.image_source_text, None) == o.image_source_text);
}

} // verus!
