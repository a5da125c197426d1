//! The encoding tree.
use crate::primitive::Primitive;
use crate::shape::{
    equivalent, lemma_equivalent_is_equal, lemma_render_all_skip, lemma_render_ends, render_all,
    Shape,
};
use crate::static_int_str;
use crate::static_int_str::digits;
use crate::text::{
    bytes_eq, lemma_boundary_at_ascii, lemma_starts_at_append, match_bytes, skip_qualifiers,
    starts_at, strip_qualifiers,
};
use vstd::prelude::*;
use vstd::string::StringSliceAdditionalSpecFns;
use vstd::utf8::encode_utf8_valid_utf8;

verus! {

broadcast use vstd::std_specs::vec::group_vec_axioms;

/// A type encoding.
///
/// Composite encodings borrow their parts, so a value is cheap to copy and
/// is never changed once it is built.
#[derive(Clone, Copy, Debug)]
pub enum Encoding<'a> {
    /// A C `char`: the code `c`.
    Char,
    /// A C `short`: the code `s`.
    Short,
    /// A C `int`: the code `i`.
    Int,
    /// A C `long`: the code `l`.
    Long,
    /// A C `long long`: the code `q`.
    LongLong,
    /// A C `unsigned char`: the code `C`.
    UChar,
    /// A C `unsigned short`: the code `S`.
    UShort,
    /// A C `unsigned int`: the code `I`.
    UInt,
    /// A C `unsigned long`: the code `L`.
    ULong,
    /// A C `unsigned long long`: the code `Q`.
    ULongLong,
    /// A C `float`: the code `f`.
    Float,
    /// A C `double`: the code `d`.
    Double,
    /// A C `long double`: the code `D`.
    LongDouble,
    /// A C `float _Complex`: the code `jf`.
    FloatComplex,
    /// A C `double _Complex`: the code `jd`.
    DoubleComplex,
    /// A C `long double _Complex`: the code `jD`.
    LongDoubleComplex,
    /// A C99 `_Bool`: the code `B`.
    Bool,
    /// A C `void`: the code `v`.
    Void,
    /// A C `char *`: the code `*`.
    String,
    /// An object: the code `@`.
    Object,
    /// A block: the code `@?`.
    Block,
    /// A class: the code `#`.
    Class,
    /// A selector: the code `:`.
    Sel,
    /// An unknown type, as used for functions: the code `?`.
    Unknown,
    /// A bitfield of the given number of bits: `b` and the width.
    BitField(u8),
    /// A pointer to the given type: `^` and the pointee.
    Pointer(&'a Encoding<'a>),
    /// An array of the given length and element type: `[`, the length, the
    /// element, `]`.
    Array(usize, &'a Encoding<'a>),
    /// A struct with the given name and fields, in order:
    /// `{name=fields}`. The name `?` marks an anonymous struct.
    Struct(&'a str, &'a Vec<Encoding<'a>>),
    /// A union with the given name and members, in order: `(name=members)`.
    Union(&'a str, &'a Vec<Encoding<'a>>),
}

/// The tree that `e` denotes.
pub open spec fn shape_of(e: Encoding<'_>) -> Shape
    decreases e,
{
    match e {
        Encoding::Char => Shape::Primitive(Primitive::Char),
        Encoding::Short => Shape::Primitive(Primitive::Short),
        Encoding::Int => Shape::Primitive(Primitive::Int),
        Encoding::Long => Shape::Primitive(Primitive::Long),
        Encoding::LongLong => Shape::Primitive(Primitive::LongLong),
        Encoding::UChar => Shape::Primitive(Primitive::UChar),
        Encoding::UShort => Shape::Primitive(Primitive::UShort),
        Encoding::UInt => Shape::Primitive(Primitive::UInt),
        Encoding::ULong => Shape::Primitive(Primitive::ULong),
        Encoding::ULongLong => Shape::Primitive(Primitive::ULongLong),
        Encoding::Float => Shape::Primitive(Primitive::Float),
        Encoding::Double => Shape::Primitive(Primitive::Double),
        Encoding::LongDouble => Shape::Primitive(Primitive::LongDouble),
        Encoding::FloatComplex => Shape::Primitive(Primitive::FloatComplex),
        Encoding::DoubleComplex => Shape::Primitive(Primitive::DoubleComplex),
        Encoding::LongDoubleComplex => Shape::Primitive(Primitive::LongDoubleComplex),
        Encoding::Bool => Shape::Primitive(Primitive::Bool),
        Encoding::Void => Shape::Primitive(Primitive::Void),
        Encoding::String => Shape::Primitive(Primitive::String),
        Encoding::Object => Shape::Primitive(Primitive::Object),
        Encoding::Block => Shape::Primitive(Primitive::Block),
        Encoding::Class => Shape::Primitive(Primitive::Class),
        Encoding::Sel => Shape::Primitive(Primitive::Sel),
        Encoding::Unknown => Shape::Primitive(Primitive::Unknown),
        Encoding::BitField(width) => Shape::BitField(width),
        Encoding::Pointer(pointee) => Shape::Pointer(Box::new(shape_of(*pointee))),
        Encoding::Array(len, item) => Shape::Array(len, Box::new(shape_of(*item))),
        Encoding::Struct(name, fields) => Shape::Struct(name.spec_bytes(), shapes_of(fields@)),
        Encoding::Union(name, members) => Shape::Union(name.spec_bytes(), shapes_of(members@)),
    }
}

/// The trees that `items` denote, in order.
pub open spec fn shapes_of(items: Seq<Encoding<'_>>) -> Seq<Shape>
    decreases items,
{
    Seq::new(
        items.len(),
        |i: int|
            if 0 <= i < items.len() {
                shape_of(items[i])
            } else {
                Shape::BitField(0)
            },
    )
}

impl<'a> View for Encoding<'a> {
    type V = Shape;

    open spec fn view(&self) -> Shape {
        shape_of(*self)
    }
}

/// Whether the byte `b` stands in `text` at position `at`.
fn match_byte(text: &[u8], at: usize, b: u8) -> (r: bool)
    requires
        at <= text@.len(),
    ensures
        r == starts_at(text@, at as int, seq![b]),
{
    if at < text.len() && text[at] == b {
        assert(text@.subrange(at as int, at + 1) =~= seq![b]);
        true
    } else {
        proof {
            if at < text@.len() {
                assert(text@.subrange(at as int, at + 1)[0] == text@[at as int]);
            }
        }
        false
    }
}

/// Whether the code of `prim` stands in `text` at position `at`; if so, the
/// position behind it.
fn match_primitive(prim: Primitive, text: &[u8], at: usize) -> (r: Option<usize>)
    requires
        at <= text@.len(),
    ensures
        match r {
            Some(end) => starts_at(text@, at as int, prim.spec_code()) && end == at
                + prim.spec_code().len(),
            None => !starts_at(text@, at as int, prim.spec_code()),
        },
{
    let total: usize = text.len();
    let first: u8 = prim.first();
    match prim.second() {
        Some(second) => {
            proof {
                lemma_starts_at_append(text@, at as int, seq![first], seq![second]);
                assert(seq![first] + seq![second] =~= prim.spec_code());
            }
            if match_byte(text, at, first) && match_byte(text, at + 1, second) {
                Some(at + 2)
            } else {
                None
            }
        },
        None => {
            if match_byte(text, at, first) {
                Some(at + 1)
            } else {
                None
            }
        },
    }
}

/// Whether the decimal digits of `n` stand in `text` at position `at`.
fn match_digits(text: &[u8], at: usize, n: usize) -> (r: bool)
    requires
        at <= text@.len(),
    ensures
        r == starts_at(text@, at as int, digits(n as nat)),
{
    let count: usize = static_int_str::end_str_len(n as u128);
    let arr: [u8; 39] = static_int_str::get_str_array::<39>(n as u128);
    let all: &[u8] = vstd::array::array_as_slice(&arr);
    let wanted: &[u8] = vstd::slice::slice_subrange(all, 0, count);
    match_bytes(text, at, wanted)
}

impl<'a> Encoding<'a> {
    /// The primitive that this encoding is, unless it is a composite.
    pub fn primitive(&self) -> (p: Option<Primitive>)
        ensures
            match p {
                Some(prim) => self@ == Shape::Primitive(prim),
                None => !(self@ is Primitive),
            },
    {
        match *self {
            Encoding::Char => Some(Primitive::Char),
            Encoding::Short => Some(Primitive::Short),
            Encoding::Int => Some(Primitive::Int),
            Encoding::Long => Some(Primitive::Long),
            Encoding::LongLong => Some(Primitive::LongLong),
            Encoding::UChar => Some(Primitive::UChar),
            Encoding::UShort => Some(Primitive::UShort),
            Encoding::UInt => Some(Primitive::UInt),
            Encoding::ULong => Some(Primitive::ULong),
            Encoding::ULongLong => Some(Primitive::ULongLong),
            Encoding::Float => Some(Primitive::Float),
            Encoding::Double => Some(Primitive::Double),
            Encoding::LongDouble => Some(Primitive::LongDouble),
            Encoding::FloatComplex => Some(Primitive::FloatComplex),
            Encoding::DoubleComplex => Some(Primitive::DoubleComplex),
            Encoding::LongDoubleComplex => Some(Primitive::LongDoubleComplex),
            Encoding::Bool => Some(Primitive::Bool),
            Encoding::Void => Some(Primitive::Void),
            Encoding::String => Some(Primitive::String),
            Encoding::Object => Some(Primitive::Object),
            Encoding::Block => Some(Primitive::Block),
            Encoding::Class => Some(Primitive::Class),
            Encoding::Sel => Some(Primitive::Sel),
            Encoding::Unknown => Some(Primitive::Unknown),
            _ => None,
        }
    }

    /// Whether the canonical text of this encoding stands in `text` at
    /// position `at`; if so, the position behind it.
    pub fn match_at(&self, text: &[u8], at: usize) -> (r: Option<usize>)
        requires
            at <= text@.len(),
        ensures
            match r {
                Some(end) => starts_at(text@, at as int, self@.render()) && end == at
                    + self@.render().len(),
                None => !starts_at(text@, at as int, self@.render()),
            },
        decreases *self,
    {
        let ghost whole = self@.render();
        let total: usize = text.len();
        match *self {
            Encoding::BitField(width) => {
                proof {
                    lemma_starts_at_append(text@, at as int, seq![98u8], digits(width as nat));
                }
                if !match_byte(text, at, 98u8) {
                    return None;
                }
                if !match_digits(text, at + 1, width as usize) {
                    return None;
                }
                Some(at + 1 + static_int_str::end_str_len(width as u128))
            },
            Encoding::Pointer(pointee) => {
                proof {
                    lemma_starts_at_append(text@, at as int, seq![94u8], pointee@.render());
                }
                if !match_byte(text, at, 94u8) {
                    return None;
                }
                pointee.match_at(text, at + 1)
            },
            Encoding::Array(len, item) => {
                let ghost number = digits(len as nat);
                proof {
                    let rest = number + item@.render() + seq![93u8];
                    assert(whole =~= seq![91u8] + rest);
                    lemma_starts_at_append(text@, at as int, seq![91u8], rest);
                    assert(rest =~= number + (item@.render() + seq![93u8]));
                    lemma_starts_at_append(
                        text@,
                        at + 1,
                        number,
                        item@.render() + seq![93u8],
                    );
                    lemma_starts_at_append(
                        text@,
                        at + 1 + number.len(),
                        item@.render(),
                        seq![93u8],
                    );
                }
                if !match_byte(text, at, 91u8) {
                    return None;
                }
                if !match_digits(text, at + 1, len) {
                    return None;
                }
                let pos: usize = at + 1 + static_int_str::end_str_len(len as u128);
                match item.match_at(text, pos) {
                    Some(end) => if match_byte(text, end, 93u8) {
                        Some(end + 1)
                    } else {
                        None
                    },
                    None => None,
                }
            },
            Encoding::Struct(name, items) | Encoding::Union(name, items) => {
                let ghost fields = shapes_of(items@);
                let is_struct: bool = match *self {
                    Encoding::Struct(_, _) => true,
                    _ => false,
                };
                let open: u8 = if is_struct { 123u8 } else { 40u8 };
                let close: u8 = if is_struct { 125u8 } else { 41u8 };
                proof {
                    let body = render_all(fields) + seq![close];
                    let named = name.spec_bytes() + (seq![61u8] + body);
                    assert(whole =~= seq![open] + named);
                    lemma_starts_at_append(text@, at as int, seq![open], named);
                    lemma_starts_at_append(
                        text@,
                        at + 1,
                        name.spec_bytes(),
                        seq![61u8] + body,
                    );
                    lemma_starts_at_append(
                        text@,
                        at + 1 + name.spec_bytes().len(),
                        seq![61u8],
                        body,
                    );
                    lemma_starts_at_append(
                        text@,
                        at + 2 + name.spec_bytes().len(),
                        render_all(fields),
                        seq![close],
                    );
                }
                if !match_byte(text, at, open) {
                    return None;
                }
                if !match_bytes(text, at + 1, name.as_bytes()) {
                    return None;
                }
                let sep: usize = at + 1 + name.len();
                if !match_byte(text, sep, 61u8) {
                    return None;
                }
                assert(decreases_to!(*self => *items));
                match Self::match_fields(items, text, sep + 1) {
                    Some(pos) => if match_byte(text, pos, close) {
                        Some(pos + 1)
                    } else {
                        None
                    },
                    None => None,
                }
            },
            _ => {
                let p = self.primitive();
                match p {
                    Some(prim) => match_primitive(prim, text, at),
                    None => unreached(),
                }
            },
        }
    }

    /// Whether the texts of `items`, one after the other, stand in `text`
    /// at position `at`; if so, the position behind them.
    fn match_fields(items: &Vec<Encoding<'_>>, text: &[u8], at: usize) -> (r: Option<usize>)
        requires
            at <= text@.len(),
        ensures
            match r {
                Some(end) => starts_at(text@, at as int, render_all(shapes_of(items@))) && end
                    == at + render_all(shapes_of(items@)).len(),
                None => !starts_at(text@, at as int, render_all(shapes_of(items@))),
            },
        decreases *items,
    {
        let ghost fields = shapes_of(items@);
        let ghost whole = render_all(fields);
        let mut pos: usize = at;
        let mut i: usize = 0;
        proof {
            assert(fields.skip(0) =~= fields);
        }
        while i < items.len()
            invariant
                i <= items@.len(),
                fields == shapes_of(items@),
                whole == render_all(fields),
                at <= pos <= text@.len(),
                starts_at(text@, at as int, whole) <==> starts_at(
                    text@,
                    pos as int,
                    render_all(fields.skip(i as int)),
                ),
                pos + render_all(fields.skip(i as int)).len() == at + whole.len(),
            decreases items@.len() - i,
        {
            proof {
                lemma_render_all_skip(fields, i as int);
                lemma_starts_at_append(
                    text@,
                    pos as int,
                    fields[i as int].render(),
                    render_all(fields.skip(i + 1)),
                );
            }
            match items[i].match_at(text, pos) {
                Some(end) => {
                    pos = end;
                },
                None => {
                    return None;
                },
            }
            i += 1;
        }
        proof {
            assert(fields.skip(i as int) =~= Seq::<Shape>::empty());
            assert(render_all(fields.skip(i as int)) =~= Seq::<u8>::empty());
            assert(text@.subrange(pos as int, pos as int) =~= Seq::<u8>::empty());
        }
        Some(pos)
    }

    /// Compares this encoding with the start of a textual encoding.
    ///
    /// Qualifiers at the start of `s` are passed over. If the canonical
    /// text of this encoding stands right behind them, the rest of `s` is
    /// returned; if not, nothing is.
    pub fn equivalent_to_start_of_str<'b>(&self, s: &'b str) -> (r: Option<&'b str>)
        ensures
            match r {
                Some(rest) => starts_at(strip_qualifiers(s.spec_bytes()), 0, self@.render())
                    && rest.spec_bytes() == strip_qualifiers(s.spec_bytes()).skip(
                    self@.render().len() as int,
                ),
                None => !starts_at(strip_qualifiers(s.spec_bytes()), 0, self@.render()),
            },
    {
        let text: &[u8] = s.as_bytes();
        let start: usize = skip_qualifiers(text);
        let ghost stripped = strip_qualifiers(s.spec_bytes());
        let ghost whole = self@.render();
        proof {
            if start + whole.len() <= text@.len() {
                assert(stripped.subrange(0, whole.len() as int) =~= text@.subrange(
                    start as int,
                    start + whole.len(),
                ));
            }
        }
        match self.match_at(text, start) {
            Some(end) => {
                proof {
                    lemma_render_ends(self@);
                    encode_utf8_valid_utf8(s@);
                    assert(text@[end - 1] == whole[whole.len() - 1]) by {
                        assert(text@.subrange(start as int, start + whole.len())[whole.len() - 1]
                            == text@[end - 1]);
                    }
                    lemma_boundary_at_ascii(text@, end - 1);
                }
                let (_, rest) = s.split_at(end);
                assert(rest.spec_bytes() =~= stripped.skip(whole.len() as int));
                Some(rest)
            },
            None => None,
        }
    }

    /// Whether the textual encoding `s`, without the qualifiers at its
    /// start, is the canonical text of this encoding.
    pub fn equivalent_to_str(&self, s: &str) -> (r: bool)
        ensures
            r == (strip_qualifiers(s.spec_bytes()) == self@.render()),
    {
        let ghost stripped = strip_qualifiers(s.spec_bytes());
        let ghost whole = self@.render();
        match self.equivalent_to_start_of_str(s) {
            Some(rest) => {
                let r: bool = rest.as_bytes().len() == 0;
                proof {
                    if r {
                        assert(stripped.skip(whole.len() as int).len() == 0);
                        assert(stripped.len() == whole.len());
                        assert(stripped =~= stripped.subrange(0, whole.len() as int));
                    } else if stripped == whole {
                        assert(stripped.skip(whole.len() as int).len() == 0);
                    }
                }
                r
            },
            None => {
                proof {
                    if stripped == whole {
                        assert(stripped.subrange(0, whole.len() as int) =~= whole);
                    }
                }
                false
            },
        }
    }

    /// Whether the two encodings denote the same type: the same kind, the
    /// same names, widths and lengths, and equivalent parts in the same
    /// order.
    pub fn equivalent_to(&self, other: &Self) -> (r: bool)
        ensures
            r == equivalent(self@, other@),
            r == (self@ == other@),
        decreases *self,
    {
        proof {
            lemma_equivalent_is_equal(self@, other@);
        }
        match (*self, *other) {
            (Encoding::BitField(a), Encoding::BitField(b)) => a == b,
            (Encoding::Pointer(a), Encoding::Pointer(b)) => a.equivalent_to(b),
            (Encoding::Array(n, a), Encoding::Array(m, b)) => n == m && a.equivalent_to(b),
            (Encoding::Struct(name, items), Encoding::Struct(other_name, other_items)) => {
                assert(decreases_to!(*self => *items));
                bytes_eq(name.as_bytes(), other_name.as_bytes()) && Self::all_equivalent(
                    items,
                    other_items,
                )
            },
            (Encoding::Union(name, items), Encoding::Union(other_name, other_items)) => {
                assert(decreases_to!(*self => *items));
                bytes_eq(name.as_bytes(), other_name.as_bytes()) && Self::all_equivalent(
                    items,
                    other_items,
                )
            },
            (_, _) => {
                let p = self.primitive();
                let q = other.primitive();
                match (p, q) {
                    (Some(a), Some(b)) => a == b,
                    (_, _) => false,
                }
            },
        }
    }

    /// Whether two field lists have the same length and equivalent fields
    /// at each position.
    fn all_equivalent(items: &Vec<Encoding<'_>>, other_items: &Vec<Encoding<'_>>) -> (r: bool)
        ensures
            r == (shapes_of(items@) == shapes_of(other_items@)),
        decreases *items,
    {
        if items.len() != other_items.len() {
            assert(shapes_of(items@).len() != shapes_of(other_items@).len());
            return false;
        }
        let mut i: usize = 0;
        while i < items.len()
            invariant
                i <= items@.len(),
                items@.len() == other_items@.len(),
                forall|j: int| 0 <= j < i ==> shape_of(items@[j]) == shape_of(other_items@[j]),
            decreases items@.len() - i,
        {
            if !items[i].equivalent_to(&other_items[i]) {
                proof {
                    assert(shapes_of(items@)[i as int] == shape_of(items@[i as int]));
                    assert(shapes_of(other_items@)[i as int] == shape_of(other_items@[i as int]));
                }
                return false;
            }
            i += 1;
        }
        assert(shapes_of(items@) =~= shapes_of(other_items@));
        true
    }
}

} // verus!
