//! The fields of an encoding tree, read one at a time.
use crate::encoding::{shape_of, shapes_of, Encoding};
use crate::shape::{equivalent, Shape};
use vstd::prelude::*;

verus! {

/// The fields of a struct or union tree that have not been read yet.
#[derive(Clone, Copy, Debug)]
pub struct SliceFields<'a> {
    items: &'a Vec<Encoding<'a>>,
    at: usize,
}

impl<'a> View for SliceFields<'a> {
    type V = Seq<Shape>;

    /// The trees of the fields that are left.
    closed spec fn view(&self) -> Seq<Shape> {
        shapes_of(self.items@).skip(self.at as int)
    }
}

impl<'a> SliceFields<'a> {
    /// The position that has been reached lies inside the list or at its end.
    pub closed spec fn wf(&self) -> bool {
        self.at <= self.items@.len()
    }

    /// All of `items`, with none read yet.
    pub fn new(items: &'a Vec<Encoding<'a>>) -> (r: SliceFields<'a>)
        ensures
            r.wf(),
            r@ == shapes_of(items@),
    {
        assert(shapes_of(items@).skip(0) =~= shapes_of(items@));
        SliceFields { items, at: 0 }
    }

    /// Whether no field is left.
    pub fn is_finished(&self) -> (r: bool)
        requires
            self.wf(),
        ensures
            r == (self@.len() == 0),
    {
        self.at == self.items.len()
    }

    /// Reads the next field. With nothing left, the result is nothing.
    pub fn next(&mut self) -> (r: Option<Encoding<'a>>)
        requires
            old(self).wf(),
        ensures
            final(self).wf(),
            old(self)@.len() == 0 ==> r is None && final(self)@ == old(self)@,
            old(self)@.len() > 0 ==> (r matches Some(field) && field@ == old(self)@[0]
                && final(self)@ == old(self)@.skip(1)),
    {
        if self.at < self.items.len() {
            let field: Encoding<'a> = self.items[self.at];
            proof {
                let all = shapes_of(self.items@);
                assert(all.skip(self.at as int)[0] == shape_of(self.items@[self.at as int]));
                assert(all.skip(self.at as int).skip(1) =~= all.skip(self.at + 1));
            }
            self.at = self.at + 1;
            Some(field)
        } else {
            None
        }
    }

    /// Reads the next field and compares it with `other`: whether there is
    /// a field left, and it is equivalent to `other`.
    pub fn eq_next(&mut self, other: &Encoding<'_>) -> (r: bool)
        requires
            old(self).wf(),
        ensures
            final(self).wf(),
            old(self)@.len() == 0 ==> !r && final(self)@ == old(self)@,
            old(self)@.len() > 0 ==> final(self)@ == old(self)@.skip(1) && r == equivalent(
                old(self)@[0],
                other@,
            ),
    {
        match self.next() {
            Some(field) => field.equivalent_to(other),
            None => false,
        }
    }
}

} // verus!
