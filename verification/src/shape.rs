//! The mathematical model of an encoding and of its canonical text.
use crate::primitive::Primitive;
use crate::static_int_str::{digits, lemma_digits_are_digits};
use crate::text::{is_qualifier, lemma_leading_qualifiers_is, strip_qualifiers};
use vstd::prelude::*;

verus! {

/// What an encoding denotes: a finite tree. Names and texts are sequences
/// of bytes (the UTF-8 form of a string).
pub enum Shape {
    /// A scalar type or a special marker.
    Primitive(Primitive),
    /// A bitfield of the given width.
    BitField(u8),
    /// A pointer to the given type.
    Pointer(Box<Shape>),
    /// An array of the given length and element type.
    Array(usize, Box<Shape>),
    /// A struct with the given name and fields.
    Struct(Seq<u8>, Seq<Shape>),
    /// A union with the given name and members.
    Union(Seq<u8>, Seq<Shape>),
}

impl Shape {
    /// The canonical text of the encoding.
    pub open spec fn render(self) -> Seq<u8>
        decreases self,
    {
        match self {
            Shape::Primitive(p) => p.spec_code(),
            Shape::BitField(width) => seq![98u8] + digits(width as nat),
            Shape::Pointer(pointee) => seq![94u8] + pointee.render(),
            Shape::Array(len, item) => seq![91u8] + digits(len as nat) + item.render() + seq![
                93u8,
            ],
            Shape::Struct(name, fields) => seq![123u8] + name + seq![61u8] + render_all(fields)
                + seq![125u8],
            Shape::Union(name, members) => seq![40u8] + name + seq![61u8] + render_all(members)
                + seq![41u8],
        }
    }
}

/// Whether two trees denote the same type.
///
/// Two primitives are equivalent when they are the same primitive, two
/// bitfields when their widths agree, two pointers when their pointees are
/// equivalent, two arrays when their lengths agree and their elements are
/// equivalent. Two structs, or two unions, are equivalent when their names
/// are the same and they have equally many fields, equivalent position by
/// position. Trees of different kinds are never equivalent.
pub open spec fn equivalent(a: Shape, b: Shape) -> bool
    decreases a,
{
    match (a, b) {
        (Shape::Primitive(p), Shape::Primitive(q)) => p == q,
        (Shape::BitField(v), Shape::BitField(w)) => v == w,
        (Shape::Pointer(x), Shape::Pointer(y)) => equivalent(*x, *y),
        (Shape::Array(n, x), Shape::Array(m, y)) => n == m && equivalent(*x, *y),
        (Shape::Struct(n, xs), Shape::Struct(m, ys)) => n == m && all_equivalent(xs, ys),
        (Shape::Union(n, xs), Shape::Union(m, ys)) => n == m && all_equivalent(xs, ys),
        _ => false,
    }
}

/// Whether two lists of trees have the same length and equivalent trees at
/// each position.
pub open spec fn all_equivalent(xs: Seq<Shape>, ys: Seq<Shape>) -> bool
    decreases xs,
{
    &&& xs.len() == ys.len()
    &&& forall|i: int| 0 <= i < xs.len() ==> equivalent(#[trigger] xs[i], ys[i])
}

/// Equivalent trees are the same tree, and a tree is equivalent to itself.
pub proof fn lemma_equivalent_is_equal(a: Shape, b: Shape)
    ensures
        equivalent(a, b) <==> a == b,
    decreases a,
{
    match (a, b) {
        (Shape::Pointer(x), Shape::Pointer(y)) => {
            lemma_equivalent_is_equal(*x, *y);
        },
        (Shape::Array(n, x), Shape::Array(m, y)) => {
            lemma_equivalent_is_equal(*x, *y);
        },
        (Shape::Struct(n, xs), Shape::Struct(m, ys)) => {
            lemma_all_equivalent_is_equal(xs, ys);
        },
        (Shape::Union(n, xs), Shape::Union(m, ys)) => {
            lemma_all_equivalent_is_equal(xs, ys);
        },
        _ => {},
    }
}

/// Lists of trees that are equivalent position by position are the same
/// list.
pub proof fn lemma_all_equivalent_is_equal(xs: Seq<Shape>, ys: Seq<Shape>)
    ensures
        all_equivalent(xs, ys) <==> xs == ys,
    decreases xs,
{
    if xs.len() == ys.len() {
        assert forall|i: int| 0 <= i < xs.len() implies (equivalent(#[trigger] xs[i], ys[i])
            <==> xs[i] == ys[i]) by {
            lemma_equivalent_is_equal(xs[i], ys[i]);
        }
        if all_equivalent(xs, ys) {
            assert(xs =~= ys);
        }
    }
}

/// Equivalence is reflexive: every tree is equivalent to itself.
pub proof fn lemma_equivalent_reflexive(a: Shape)
    ensures
        equivalent(a, a),
{
    lemma_equivalent_is_equal(a, a);
}

/// Equivalence is symmetric: it holds of `a` and `b` exactly when it holds
/// of `b` and `a`.
pub proof fn lemma_equivalent_symmetric(a: Shape, b: Shape)
    ensures
        equivalent(a, b) == equivalent(b, a),
{
    lemma_equivalent_is_equal(a, b);
    lemma_equivalent_is_equal(b, a);
}

/// Equivalence is transitive: from `a` to `b` and from `b` to `c` it
/// carries over to `a` and `c`.
pub proof fn lemma_equivalent_transitive(a: Shape, b: Shape, c: Shape)
    requires
        equivalent(a, b),
        equivalent(b, c),
    ensures
        equivalent(a, c),
{
    lemma_equivalent_is_equal(a, b);
    lemma_equivalent_is_equal(b, c);
    lemma_equivalent_is_equal(a, c);
}

/// Kind and name are part of what a tree is: a struct is never equivalent
/// to a union, and two structs, or two unions, with different names are
/// never equivalent, whatever their fields.
pub proof fn lemma_kind_and_name_count(
    name: Seq<u8>,
    fields: Seq<Shape>,
    other: Seq<u8>,
    members: Seq<Shape>,
)
    ensures
        !equivalent(Shape::Struct(name, fields), Shape::Union(other, members)),
        !equivalent(Shape::Union(name, fields), Shape::Struct(other, members)),
        name != other ==> !equivalent(Shape::Struct(name, fields), Shape::Struct(other, members)),
        name != other ==> !equivalent(Shape::Union(name, fields), Shape::Union(other, members)),
{
}

/// Qualifiers in front of the canonical text of a tree do not count: with
/// them taken off, the text is the canonical text again.
pub proof fn lemma_qualifiers_ignored(shape: Shape, qualifiers: Seq<u8>)
    requires
        forall|i: int| 0 <= i < qualifiers.len() ==> is_qualifier(#[trigger] qualifiers[i]),
    ensures
        strip_qualifiers(qualifiers + shape.render()) == shape.render(),
{
    let text = qualifiers + shape.render();
    lemma_render_ends(shape);
    assert(text[qualifiers.len() as int] == shape.render()[0]);
    assert forall|i: int| 0 <= i < qualifiers.len() implies is_qualifier(#[trigger] text[i]) by {
        assert(text[i] == qualifiers[i]);
    }
    lemma_leading_qualifiers_is(text, qualifiers.len() as int);
    assert(strip_qualifiers(text) =~= shape.render());
}

/// The texts of `fields`, one after the other.
pub open spec fn render_all(fields: Seq<Shape>) -> Seq<u8>
    decreases fields,
{
    if fields.len() == 0 {
        Seq::empty()
    } else {
        fields[0].render() + render_all(fields.drop_first())
    }
}

/// Rendering a list with one more field behind it appends that field's text.
pub proof fn lemma_render_all_push(fields: Seq<Shape>, last: Shape)
    ensures
        render_all(fields.push(last)) == render_all(fields) + last.render(),
    decreases fields.len(),
{
    let all = fields.push(last);
    if fields.len() == 0 {
        assert(all.drop_first() =~= Seq::<Shape>::empty());
        assert(render_all(all.drop_first()) =~= Seq::<u8>::empty());
        assert(all[0] == last);
        assert(render_all(all) =~= last.render());
        assert(render_all(fields) + last.render() =~= last.render());
    } else {
        assert(all.drop_first() =~= fields.drop_first().push(last));
        lemma_render_all_push(fields.drop_first(), last);
        assert(render_all(all) =~= render_all(fields) + last.render());
    }
}

/// The text of the first `n` fields is a prefix of the text of them all.
pub proof fn lemma_render_all_take(fields: Seq<Shape>, n: int)
    requires
        0 <= n <= fields.len(),
    ensures
        render_all(fields.take(n)).len() <= render_all(fields).len(),
        n < fields.len() ==> render_all(fields.take(n + 1)) == render_all(fields.take(n))
            + fields[n].render(),
        n < fields.len() ==> render_all(fields.take(n)).len() + fields[n].render().len()
            <= render_all(fields).len(),
    decreases fields.len() - n,
{
    if n < fields.len() {
        assert(fields.take(n + 1) =~= fields.take(n).push(fields[n]));
        lemma_render_all_push(fields.take(n), fields[n]);
        lemma_render_all_take(fields, n + 1);
    } else {
        assert(fields.take(n) =~= fields);
    }
}

/// The text of the fields from `n` on starts with the text of field `n`.
pub proof fn lemma_render_all_skip(fields: Seq<Shape>, n: int)
    requires
        0 <= n < fields.len(),
    ensures
        render_all(fields.skip(n)) == fields[n].render() + render_all(fields.skip(n + 1)),
{
    assert(fields.skip(n).drop_first() =~= fields.skip(n + 1));
    assert(fields.skip(n)[0] == fields[n]);
}

/// Every encoding has at least one byte of text. Its first byte is ASCII
/// and is none of the qualifiers; its last byte is ASCII.
pub proof fn lemma_render_ends(shape: Shape)
    ensures
        shape.render().len() >= 1,
        shape.render()[0] < 128,
        !is_qualifier(shape.render()[0]),
        shape.render().last() < 128,
    decreases shape,
{
    match shape {
        Shape::Primitive(p) => {
            Primitive::lemma_codes(p, 0);
        },
        Shape::BitField(width) => {
            lemma_digits_are_digits(width as nat);
            let d = digits(width as nat);
            assert(shape.render().last() == d[d.len() - 1]);
        },
        Shape::Pointer(pointee) => {
            lemma_render_ends(*pointee);
            let inner = pointee.render();
            assert(shape.render().last() == inner[inner.len() - 1]);
        },
        _ => {},
    }
}

} // verus!
