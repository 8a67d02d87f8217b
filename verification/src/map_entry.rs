//! The record exchanged throughout the system: one depicted entity as some
//! external source describes it.
use vstd::prelude::*;
use crate::ElementId;
use crate::ElementIdView;

verus! {

/// A WGS84 position, stored as nanodegrees so that positions are exact
/// values with a total order. Latitude first, longitude second.
#[derive(Clone, Copy, Debug, PartialEq, Eq, Structural)]
pub struct GeoPos {
    pub lat_nanodeg: i64,
    pub lon_nanodeg: i64,
}

/// Where a record's image comes from, with optional credit information.
#[derive(Debug)]
pub struct MapEntryImageSource {
    pub url: String,
    pub credit_url: Option<String>,
    pub credit_text: Option<String>,
}

/// Mathematical model of `MapEntryImageSource`.
pub ghost struct ImageSourceView {
    pub url: Seq<char>,
    pub credit_url: Option<Seq<char>>,
    pub credit_text: Option<Seq<char>>,
}

impl View for MapEntryImageSource {
    type V = ImageSourceView;

    open spec fn view(&self) -> ImageSourceView {
        ImageSourceView {
            url: self.url@,
            credit_url: match self.credit_url {
                Some(ref u) => Some(u@),
                None => None,
            },
            credit_text: match self.credit_text {
                Some(ref t) => Some(t@),
                None => None,
            },
        }
    }
}

impl Clone for MapEntryImageSource {
    fn clone(&self) -> (r: Self)
        ensures
            r@ == self@,
    {
        let r = MapEntryImageSource {
            url: self.url.clone(),
            credit_url: match &self.credit_url {
                Some(u) => Some(u.clone()),
                None => None,
            },
            credit_text: match &self.credit_text {
                Some(t) => Some(t.clone()),
                None => None,
            },
        };
        proof {
            assert(r@ == self@);
        }
        r
    }
}

/// One depicted entity: everything the published map needs to show it.
#[derive(Debug)]
pub struct MapEntry {
    pub pos: Option<GeoPos>,
    pub name: Option<String>,
    pub location_name: Option<String>,
    pub image: Option<MapEntryImageSource>,
    pub source_url: Option<String>,
    pub is_in_exhibit: bool,
    pub nature: Option<String>,
    pub element_ids: Vec<ElementId>,
}

/// Mathematical model of `MapEntry`.
pub ghost struct MapEntryView {
    pub pos: Option<GeoPos>,
    pub name: Option<Seq<char>>,
    pub location_name: Option<Seq<char>>,
    pub image: Option<ImageSourceView>,
    pub source_url: Option<Seq<char>>,
    pub is_in_exhibit: bool,
    pub nature: Option<Seq<char>>,
    pub element_ids: Seq<ElementIdView>,
}

pub open spec fn opt_string_view(o: &Option<String>) -> Option<Seq<char>> {
    match o {
        Some(s) => Some(s@),
        None => None,
    }
}

impl View for MapEntry {
    type V = MapEntryView;

    open spec fn view(&self) -> MapEntryView {
        MapEntryView {
            pos: self.pos,
            name: opt_string_view(&self.name),
            location_name: opt_string_view(&self.location_name),
            image: match self.image {
                Some(ref i) => Some(i@),
                None => None,
            },
            source_url: opt_string_view(&self.source_url),
            is_in_exhibit: self.is_in_exhibit,
            nature: opt_string_view(&self.nature),
            element_ids: self.element_ids.deep_view(),
        }
    }
}

impl DeepView for MapEntry {
    type V = MapEntryView;

    open spec fn deep_view(&self) -> MapEntryView {
        self.view()
    }
}

fn clone_opt_string(o: &Option<String>) -> (r: Option<String>)
    ensures
        opt_string_view(&r) == opt_string_view(o),
{
    match o {
        Some(s) => Some(s.clone()),
        None => None,
    }
}

impl Clone for MapEntry {
    fn clone(&self) -> (r: Self)
        ensures
            r@ == self@,
    {
        let r = MapEntry {
            pos: self.pos,
            name: clone_opt_string(&self.name),
            location_name: clone_opt_string(&self.location_name),
            image: match &self.image {
                Some(i) => Some(i.clone()),
                None => None,
            },
            source_url: clone_opt_string(&self.source_url),
            is_in_exhibit: self.is_in_exhibit,
            nature: clone_opt_string(&self.nature),
            element_ids: crate::clone_element_ids(&self.element_ids),
        };
        proof {
            assert(r@ == self@);
        }
        r
    }
}


/// What finishing a record does: a record with an image that has a credit
/// address but no credit text gets one naming the address's domain;
/// everything else stays as it is.
pub open spec fn post_process_spec(e: MapEntryView) -> MapEntryView {
    match e.image {
        Some(img) => {
            if img.credit_text is None {
                match img.credit_url {
                    Some(cu) => match crate::url_util::url_domain_of(cu) {
                        Some(d) => MapEntryView {
                            image: Some(
                                ImageSourceView {
                                    url: img.url,
                                    credit_url: img.credit_url,
                                    credit_text: Some("From "@ + d),
                                },
                            ),
                            ..e
                        },
                        None => e,
                    },
                    None => e,
                }
            } else {
                e
            }
        },
        None => e,
    }
}

impl MapEntry {
    /// Fill in derived values once the record is otherwise final: an image
    /// credit text naming the credit address's domain, where an address is
    /// there and no text was.
    pub fn post_process(&mut self)
        ensures
            final(self)@ == post_process_spec(old(self)@),
    {
        match &mut self.image {
            Some(image) => {
                if image.credit_text.is_none() {
                    match &image.credit_url {
                        Some(credit_url) => {
                            match crate::url_util::url_domain(credit_url.as_str()) {
                                Some(domain) => {
                                    let mut t = String::from_str("From ");
                                    t.append(domain.as_str());
                                    image.credit_text = Some(t);
                                },
                                None => {},
                            }
                        },
                        None => {},
                    }
                }
            },
            None => {},
        }
    }
}

} // verus!
