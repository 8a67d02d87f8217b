//! Where an image lives: today always a remote address; a local image is
//! what an override substitutes at merge time.
use vstd::prelude::*;

verus! {

#[derive(Debug)]
pub enum ImageReference {
    Remote(String),
}

impl View for ImageReference {
    type V = Seq<char>;

    open spec fn view(&self) -> Seq<char> {
        match self {
            ImageReference::Remote(s) => s@,
        }
    }
}

impl Clone for ImageReference {
    fn clone(&self) -> (r: Self)
        ensures
            r@ == self@,
    {
        match self {
            ImageReference::Remote(s) => ImageReference::Remote(s.clone()),
        }
    }
}

} // verus!
