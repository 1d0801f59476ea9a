//! A single rename: a source path and a destination path.
use vstd::prelude::*;

verus! {

/// One rename, from `src` to `dst`.
#[derive(Debug)]
pub struct Mapping {
    src: String,
    dst: String,
}

impl View for Mapping {
    type V = (Seq<char>, Seq<char>);

    closed spec fn view(&self) -> (Seq<char>, Seq<char>) {
        (self.src@, self.dst@)
    }
}

impl Mapping {
    /// The rename from `src` to `dst`.
    pub fn new(src: String, dst: String) -> (m: Mapping)
        ensures
            m@ == (src@, dst@),
    {
        Mapping { src, dst }
    }

    /// The source.
    pub fn src(&self) -> (r: &str)
        ensures
            r@ == self@.0,
    {
        self.src.as_str()
    }

    /// The destination.
    pub fn dst(&self) -> (r: &str)
        ensures
            r@ == self@.1,
    {
        self.dst.as_str()
    }

    /// The rename that undoes this one.
    pub fn invert(&self) -> (m: Mapping)
        ensures
            m@ == (self@.1, self@.0),
    {
        Mapping { src: self.dst.clone(), dst: self.src.clone() }
    }

    /// A copy of this rename.
    pub fn duplicate(&self) -> (m: Mapping)
        ensures
            m@ == self@,
    {
        Mapping { src: self.src.clone(), dst: self.dst.clone() }
    }
}

impl PartialEq for Mapping {
    fn eq(&self, other: &Mapping) -> (r: bool) {
        self.src == other.src && self.dst == other.dst
    }
}

impl vstd::std_specs::cmp::PartialEqSpecImpl for Mapping {
    open spec fn obeys_eq_spec() -> bool {
        true
    }

    open spec fn eq_spec(&self, other: &Mapping) -> bool {
        self@ == other@
    }
}

impl Eq for Mapping {

}

} // verus!
