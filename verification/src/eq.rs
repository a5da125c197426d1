//! `==` between encodings.
use crate::encoding::Encoding;
use vstd::prelude::*;
use vstd::std_specs::cmp::PartialEqSpecImpl;

verus! {

impl<'a> PartialEq for Encoding<'a> {
    /// Two encodings are equal when they denote the same tree.
    fn eq(&self, other: &Self) -> (r: bool) {
        self.equivalent_to(other)
    }
}

impl<'a> PartialEqSpecImpl for Encoding<'a> {
    open spec fn obeys_eq_spec() -> bool {
        true
    }

    open spec fn eq_spec(&self, other: &Self) -> bool {
        self@ == other@
    }
}

} // verus!
