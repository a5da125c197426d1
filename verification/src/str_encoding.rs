//! Encodings that are held as text and read on demand, and their
//! comparison with encoding trees.
use crate::encoding::{shapes_of, Encoding};
use crate::parse::{
    classify, is_valid, parse, parse_fields, parse_shape, parse_struct, struct_parts, ParseResult,
};
use crate::primitive::Primitive;
use crate::scan::{chomp, lemma_scan_len, scan_len};
use crate::shape::Shape;
use crate::text::{bytes_eq, split_str};
use vstd::prelude::*;
use vstd::string::{StringExecFns, StringSliceAdditionalSpecFns};
use vstd::utf8::encode_utf8;

verus! {

broadcast use vstd::std_specs::vec::group_vec_axioms;

/// An encoding held as text. Nothing is checked when it is made: whether
/// the text is well formed shows when it is read.
#[derive(Clone, Copy, Debug)]
pub struct StrEncoding<'a>(&'a str);

/// A textual encoding that is read as a pointer.
#[derive(Clone, Copy, Debug)]
pub struct StrPointerEncoding<'a>(StrEncoding<'a>);

/// A textual encoding that is read as a struct.
#[derive(Clone, Copy, Debug)]
pub struct StrStructEncoding<'a>(StrEncoding<'a>);

/// The fields of a textual struct that have not been read yet.
#[derive(Clone, Copy, Debug)]
pub struct StrFields<'a> {
    fields: &'a str,
}

/// What a textual encoding is at its top level.
#[derive(Clone, Copy, Debug)]
pub enum Descriptor<'a> {
    /// The text is the code of this primitive.
    Primitive(Primitive),
    /// The text starts with `^`.
    Pointer(StrPointerEncoding<'a>),
    /// The text starts with `{` and ends with `}`.
    Struct(StrStructEncoding<'a>),
}

impl<'a> View for StrEncoding<'a> {
    type V = Seq<u8>;

    /// The bytes of the text.
    closed spec fn view(&self) -> Seq<u8> {
        self.0.spec_bytes()
    }
}

impl<'a> View for StrPointerEncoding<'a> {
    type V = Seq<u8>;

    /// The bytes of the text.
    closed spec fn view(&self) -> Seq<u8> {
        self.0@
    }
}

impl<'a> View for StrStructEncoding<'a> {
    type V = Seq<u8>;

    /// The bytes of the text.
    closed spec fn view(&self) -> Seq<u8> {
        self.0@
    }
}

impl<'a> View for StrFields<'a> {
    type V = Seq<u8>;

    /// The bytes of the field list that is left.
    closed spec fn view(&self) -> Seq<u8> {
        self.fields.spec_bytes()
    }
}

/// A list that starts with `first` and goes on with `rest` is the part of
/// `target` from `i` on exactly when `target` has `first` at `i` and `rest`
/// behind it.
proof fn lemma_cons_is_skip(first: Shape, rest: Seq<Shape>, target: Seq<Shape>, i: int)
    requires
        0 <= i <= target.len(),
    ensures
        (seq![first] + rest == target.skip(i)) <==> (i < target.len() && first == target[i]
            && rest == target.skip(i + 1)),
{
    let list = seq![first] + rest;
    if list == target.skip(i) {
        assert(list.len() >= 1);
        assert(list[0] == first);
        assert(rest =~= list.skip(1));
        assert(target.skip(i).skip(1) =~= target.skip(i + 1));
    }
    if i < target.len() && first == target[i] && rest == target.skip(i + 1) {
        assert(list =~= target.skip(i));
    }
}

/// Whether the field list `fields` denotes the trees of `items`, in order
/// and with none left over on either side.
///
/// The fields are read from the text one at a time; the comparison ends at
/// the first field that differs.
pub fn fields_eq(fields: &str, items: &Vec<Encoding<'_>>) -> (r: bool)
    ensures
        r == (parse_fields(fields.spec_bytes()) == Some(shapes_of(items@))),
    decreases *items,
{
    let ghost all = fields.spec_bytes();
    let ghost target = shapes_of(items@);
    let mut left: &str = fields;
    let mut i: usize = 0;
    proof {
        assert(target.skip(0) =~= target);
    }
    while left.as_bytes().len() != 0
        invariant
            i <= items@.len(),
            all == fields.spec_bytes(),
            target == shapes_of(items@),
            (parse_fields(all) == Some(target)) <==> (parse_fields(left.spec_bytes()) == Some(
                target.skip(i as int),
            )),
        decreases left.spec_bytes().len(),
    {
        proof {
            lemma_scan_len(left.spec_bytes());
        }
        let (h, t) = chomp(left);
        let field: &str = match h {
            Some(field) => field,
            None => {
                return false;
            },
        };
        if i >= items.len() {
            proof {
                if parse_fields(left.spec_bytes()) is Some {
                    assert(parse_fields(left.spec_bytes()).unwrap().len() >= 1);
                }
            }
            return false;
        }
        let same: bool = StrEncoding(field).eq_encoding(&items[i]);
        proof {
            let first = parse_shape(field.spec_bytes());
            let rest = parse_fields(t.spec_bytes());
            if first is Some && rest is Some {
                lemma_cons_is_skip(first.unwrap(), rest.unwrap(), target, i as int);
            }
        }
        if !same {
            return false;
        }
        left = t;
        i += 1;
    }
    proof {
        assert(parse_fields(left.spec_bytes()) == Some(Seq::<Shape>::empty()));
        if i == items@.len() {
            assert(target.skip(i as int) =~= Seq::<Shape>::empty());
        } else {
            assert(target.skip(i as int).len() > 0);
        }
    }
    i == items.len()
}

impl<'a> StrEncoding<'a> {
    /// Holds `s` as an encoding if it is well formed.
    pub fn new(s: &'a str) -> (r: Option<StrEncoding<'a>>)
        ensures
            r is Some <==> parse_shape(s.spec_bytes()) is Some,
            r matches Some(e) ==> e@ == s.spec_bytes(),
    {
        if is_valid(s) {
            Some(StrEncoding(s))
        } else {
            None
        }
    }

    /// Holds `s` as an encoding, without looking at it.
    pub fn new_unchecked(s: &'a str) -> (r: StrEncoding<'a>)
        ensures
            r@ == s.spec_bytes(),
    {
        StrEncoding(s)
    }

    /// The text.
    pub fn as_str(&self) -> (s: &'a str)
        ensures
            s.spec_bytes() == self@,
    {
        self.0
    }

    /// The text as an owned string.
    pub fn to_string(&self) -> (text: String)
        ensures
            encode_utf8(text@) == self@,
    {
        String::from_str(self.0)
    }

    /// What the text is at its top level.
    ///
    /// The text has to have one of the three forms.
    pub fn descriptor(&self) -> (r: Descriptor<'a>)
        requires
            !(classify(self@) is Error),
        ensures
            match classify(self@) {
                ParseResult::Primitive(p) => r == Descriptor::Primitive(p),
                ParseResult::Pointer => r matches Descriptor::Pointer(q) && q@ == self@,
                ParseResult::Struct => r matches Descriptor::Struct(q) && q@ == self@,
                ParseResult::Error => false,
            },
    {
        match parse(self.0) {
            ParseResult::Primitive(p) => Descriptor::Primitive(p),
            ParseResult::Pointer => Descriptor::Pointer(StrPointerEncoding(*self)),
            ParseResult::Struct => Descriptor::Struct(StrStructEncoding(*self)),
            ParseResult::Error => unreached(),
        }
    }

    /// Whether the text is well formed and denotes the same type as
    /// `other`.
    pub fn eq_encoding(&self, other: &Encoding<'_>) -> (r: bool)
        ensures
            r == (parse_shape(self@) == Some(other@)),
        decreases *other,
    {
        let s: &str = self.0;
        match parse(s) {
            ParseResult::Primitive(p) => match other.primitive() {
                Some(q) => p == q,
                None => false,
            },
            ParseResult::Pointer => match *other {
                Encoding::Pointer(pointee) => {
                    let (_, rest) = split_str(s, 1);
                    StrEncoding(rest).eq_encoding(pointee)
                },
                _ => false,
            },
            ParseResult::Struct => match *other {
                Encoding::Struct(name, items) => match parse_struct(s) {
                    Some((own_name, fields)) => bytes_eq(own_name.as_bytes(), name.as_bytes())
                        && fields_eq(fields, items),
                    None => false,
                },
                _ => false,
            },
            ParseResult::Error => false,
        }
    }
}

impl<'a> StrPointerEncoding<'a> {
    /// Holds `s` as a pointer encoding, without looking at it.
    pub fn from_str_unchecked(s: &'a str) -> (r: StrPointerEncoding<'a>)
        ensures
            r@ == s.spec_bytes(),
    {
        StrPointerEncoding(StrEncoding(s))
    }

    /// The text.
    pub fn as_str(&self) -> (s: &'a str)
        ensures
            s.spec_bytes() == self@,
    {
        self.0.as_str()
    }

    /// The encoding of what the pointer points to: the text behind the
    /// leading `^`.
    pub fn pointee(&self) -> (r: StrEncoding<'a>)
        requires
            classify(self@) is Pointer,
        ensures
            r@ == self@.skip(1),
    {
        let (_, rest) = split_str(self.0.as_str(), 1);
        StrEncoding(rest)
    }

    /// Whether the text is a well-formed pointer encoding and `other` is a
    /// pointer to the same type.
    pub fn eq_encoding(&self, other: &Encoding<'_>) -> (r: bool)
        ensures
            r == (classify(self@) is Pointer && parse_shape(self@) == Some(other@)),
    {
        match parse(self.0.as_str()) {
            ParseResult::Pointer => self.0.eq_encoding(other),
            _ => false,
        }
    }
}

impl<'a> StrStructEncoding<'a> {
    /// Holds `s` as a struct encoding, without looking at it.
    pub fn from_str_unchecked(s: &'a str) -> (r: StrStructEncoding<'a>)
        ensures
            r@ == s.spec_bytes(),
    {
        StrStructEncoding(StrEncoding(s))
    }

    /// The text.
    pub fn as_str(&self) -> (s: &'a str)
        ensures
            s.spec_bytes() == self@,
    {
        self.0.as_str()
    }

    /// The name of the struct and its fields, not yet read.
    ///
    /// The text has to stand in braces and hold a `=`.
    pub fn contents(&self) -> (r: (&'a str, StrFields<'a>))
        requires
            struct_parts(self@) is Some,
        ensures
            r.0.spec_bytes() == struct_parts(self@).unwrap().0,
            r.1@ == struct_parts(self@).unwrap().1,
    {
        let (name, fields) = parse_struct(self.0.as_str()).unwrap();
        (name, StrFields { fields })
    }

    /// The name of the struct.
    ///
    /// The text has to stand in braces and hold a `=`.
    pub fn name(&self) -> (r: &'a str)
        requires
            struct_parts(self@) is Some,
        ensures
            r.spec_bytes() == struct_parts(self@).unwrap().0,
    {
        self.contents().0
    }

    /// Whether the text is a well-formed struct with the name `other_name`
    /// and with fields that denote the same types as `other_fields`, in
    /// order.
    ///
    /// The text has to stand in braces and hold a `=`.
    pub fn eq_struct(&self, other_name: &str, other_fields: &Vec<Encoding<'_>>) -> (r: bool)
        requires
            struct_parts(self@) is Some,
        ensures
            r == (parse_shape(self@) == Some(
                Shape::Struct(other_name.spec_bytes(), shapes_of(other_fields@)),
            )),
    {
        let (name, fields) = self.contents();
        bytes_eq(name.as_bytes(), other_name.as_bytes()) && fields.eq(other_fields)
    }

    /// Whether the text is a well-formed struct encoding and `other` is a
    /// struct of the same name with the same fields.
    pub fn eq_encoding(&self, other: &Encoding<'_>) -> (r: bool)
        ensures
            r == (classify(self@) is Struct && parse_shape(self@) == Some(other@)),
    {
        match parse(self.0.as_str()) {
            ParseResult::Struct => self.0.eq_encoding(other),
            _ => false,
        }
    }
}

impl<'a> StrFields<'a> {
    /// Whether no field is left.
    pub fn is_finished(&self) -> (r: bool)
        ensures
            r == (self@.len() == 0),
    {
        self.fields.as_bytes().len() == 0
    }

    /// Reads the next field: the shortest prefix of what is left that is a
    /// complete encoding. With nothing left, the result is nothing.
    ///
    /// What is left has to start with a complete encoding.
    pub fn next(&mut self) -> (r: Option<StrEncoding<'a>>)
        requires
            old(self)@.len() > 0 ==> scan_len(old(self)@) is Some,
        ensures
            old(self)@.len() == 0 ==> r is None && final(self)@ == old(self)@,
            old(self)@.len() > 0 ==> (r matches Some(field) && field@ == old(self)@.take(
                scan_len(old(self)@).unwrap(),
            ) && final(self)@ == old(self)@.skip(scan_len(old(self)@).unwrap())),
    {
        if self.fields.as_bytes().len() == 0 {
            None
        } else {
            let (h, t) = chomp(self.fields);
            self.fields = t;
            match h {
                Some(field) => Some(StrEncoding(field)),
                None => None,
            }
        }
    }

    /// Reads the next field and compares it with `other`: whether there is
    /// a field left, and it is well formed and denotes the same type.
    ///
    /// What is left has to start with a complete encoding.
    pub fn eq_next(&mut self, other: &Encoding<'_>) -> (r: bool)
        requires
            old(self)@.len() > 0 ==> scan_len(old(self)@) is Some,
        ensures
            old(self)@.len() == 0 ==> !r && final(self)@ == old(self)@,
            old(self)@.len() > 0 ==> final(self)@ == old(self)@.skip(
                scan_len(old(self)@).unwrap(),
            ) && r == (parse_shape(old(self)@.take(scan_len(old(self)@).unwrap())) == Some(
                other@,
            )),
    {
        match self.next() {
            Some(field) => field.eq_encoding(other),
            None => false,
        }
    }

    /// Whether the fields that are left denote the trees of `items`, in
    /// order and with none left over on either side.
    pub fn eq(self, items: &Vec<Encoding<'_>>) -> (r: bool)
        ensures
            r == (parse_fields(self@) == Some(shapes_of(items@))),
    {
        fields_eq(self.fields, items)
    }
}

} // verus!
