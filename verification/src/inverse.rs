//! Which canonical texts the parser reads back.
//!
//! The parser knows a part of the grammar: primitives of one byte,
//! pointers, and structs. A tree made of these alone, with names that hold
//! none of the bytes that the parser goes by, is read back from its
//! canonical text as the tree that it is.
use crate::parse::{
    first_index, lemma_first_index, lemma_parsed_text_is_canonical, parse_fields, parse_shape,
};
use crate::primitive::Primitive;
use crate::scan::{brace_end, scan_len};
use crate::shape::{lemma_render_ends, render_all, Shape};
use crate::text::{lemma_starts_at_append, leading_qualifiers, starts_at, strip_qualifiers};
use vstd::prelude::*;

verus! {

/// No byte of `bytes` is `=`, `{` or `}`.
pub open spec fn plain(bytes: Seq<u8>) -> bool {
    forall|i: int|
        0 <= i < bytes.len() ==> (#[trigger] bytes[i]) != 61 && bytes[i] != 123 && bytes[i] != 125
}

/// Whether `shape` lies in the part of the grammar that the parser knows:
/// a primitive with a code of one byte, a pointer to such a tree, or a
/// struct of such trees with a plain name.
pub open spec fn readable(shape: Shape) -> bool
    decreases shape,
{
    match shape {
        Shape::Primitive(p) => p.spec_second() is None,
        Shape::Pointer(pointee) => readable(*pointee),
        Shape::Struct(name, fields) => plain(name) && all_readable(fields),
        _ => false,
    }
}

/// Whether every tree of `fields` is readable.
pub open spec fn all_readable(fields: Seq<Shape>) -> bool
    decreases fields,
{
    forall|i: int| 0 <= i < fields.len() ==> readable(#[trigger] fields[i])
}

/// Where `data` stands in `text` at `at`, the bytes of `text` from `at` on
/// are those of `data`.
proof fn lemma_starts_at_bytes(text: Seq<u8>, at: int, data: Seq<u8>)
    requires
        starts_at(text, at, data),
    ensures
        forall|k: int| 0 <= k < data.len() ==> text[at + k] == #[trigger] data[k],
{
    assert forall|k: int| 0 <= k < data.len() implies text[at + k] == #[trigger] data[k] by {
        assert(text.subrange(at, at + data.len())[k] == text[at + k]);
    }
}

/// A brace scan passes over bytes that are no braces and keeps its depth.
proof fn lemma_walk_plain(text: Seq<u8>, at: int, n: int, depth: int)
    requires
        depth >= 1,
        0 <= at,
        0 <= n,
        at + n <= text.len(),
        forall|k: int| at <= k < at + n ==> text[k] != 123 && text[k] != 125,
    ensures
        brace_end(text, at, depth) == brace_end(text, at + n, depth),
    decreases n,
{
    if n > 0 {
        lemma_walk_plain(text, at + 1, n - 1, depth);
    }
}

/// A brace scan passes over the text of a readable tree and keeps its
/// depth: the braces in such a text balance.
proof fn lemma_walk_render(shape: Shape, text: Seq<u8>, at: int, depth: int)
    requires
        readable(shape),
        depth >= 1,
        starts_at(text, at, shape.render()),
    ensures
        brace_end(text, at, depth) == brace_end(text, at + shape.render().len(), depth),
    decreases shape,
{
    lemma_starts_at_bytes(text, at, shape.render());
    match shape {
        Shape::Primitive(p) => {
            Primitive::lemma_codes(p, p.spec_first());
            assert(shape.render()[0] == p.spec_first());
            lemma_walk_plain(text, at, 1, depth);
        },
        Shape::Pointer(pointee) => {
            assert(shape.render()[0] == 94);
            lemma_walk_plain(text, at, 1, depth);
            lemma_starts_at_append(text, at, seq![94u8], pointee.render());
            lemma_walk_render(*pointee, text, at + 1, depth);
        },
        Shape::Struct(name, fields) => {
            let head = seq![123u8] + name + seq![61u8];
            let body = render_all(fields);
            assert(shape.render() =~= head + (body + seq![125u8]));
            lemma_starts_at_append(text, at, head, body + seq![125u8]);
            lemma_starts_at_append(text, at + head.len(), body, seq![125u8]);
            lemma_starts_at_bytes(text, at, head);
            lemma_starts_at_bytes(text, at + head.len() + body.len(), seq![125u8]);
            assert(head[0] == 123);
            assert(text[at] == 123);
            assert forall|k: int| at + 1 <= k < at + head.len() implies text[k] != 123 && text[k]
                != 125 by {
                assert(text[at + (k - at)] == head[k - at]);
                if k - at - 1 < name.len() {
                    assert(head[k - at] == name[k - at - 1]);
                }
            }
            lemma_walk_plain(text, at + 1, head.len() - 1, depth + 1);
            lemma_walk_fields(fields, text, at + head.len(), depth + 1);
            assert(text[at + head.len() + body.len() + 0] == seq![125u8][0]);
        },
        _ => {},
    }
}

/// A brace scan passes over the texts of readable trees and keeps its
/// depth.
proof fn lemma_walk_fields(fields: Seq<Shape>, text: Seq<u8>, at: int, depth: int)
    requires
        all_readable(fields),
        depth >= 1,
        starts_at(text, at, render_all(fields)),
    ensures
        brace_end(text, at, depth) == brace_end(text, at + render_all(fields).len(), depth),
    decreases fields,
{
    if fields.len() > 0 {
        let first = fields[0].render();
        let rest = fields.drop_first();
        assert(all_readable(rest)) by {
            assert forall|i: int| 0 <= i < rest.len() implies readable(#[trigger] rest[i]) by {
                assert(rest[i] == fields[i + 1]);
            }
        }
        lemma_starts_at_append(text, at, first, render_all(rest));
        lemma_walk_render(fields[0], text, at, depth);
        lemma_walk_fields(rest, text, at + first.len(), depth);
    }
}

/// The scanner finds the end of a readable tree's text, whatever follows
/// it.
pub proof fn lemma_scan_render(shape: Shape, tail: Seq<u8>)
    requires
        readable(shape),
    ensures
        scan_len(shape.render() + tail) == Some(shape.render().len() as int),
    decreases shape,
{
    let own = shape.render();
    let text = own + tail;
    lemma_render_ends(shape);
    assert(text.subrange(0, own.len() as int) =~= own);
    assert(text[0] == own[0]);
    match shape {
        Shape::Primitive(p) => {
            Primitive::lemma_codes(p, p.spec_first());
        },
        Shape::Pointer(pointee) => {
            assert(text.skip(1) =~= pointee.render() + tail);
            lemma_scan_render(*pointee, tail);
        },
        Shape::Struct(name, fields) => {
            let head = seq![123u8] + name + seq![61u8];
            let body = render_all(fields);
            assert(own =~= head + (body + seq![125u8]));
            lemma_starts_at_append(text, 0, head, body + seq![125u8]);
            lemma_starts_at_append(text, head.len() as int, body, seq![125u8]);
            lemma_starts_at_bytes(text, 0, head);
            lemma_starts_at_bytes(text, (head.len() + body.len()) as int, seq![125u8]);
            assert forall|k: int| 1 <= k < head.len() implies text[k] != 123 && text[k]
                != 125 by {
                assert(text[0 + k] == head[k]);
                if k - 1 < name.len() {
                    assert(head[k] == name[k - 1]);
                }
            }
            lemma_walk_plain(text, 1, head.len() - 1, 1);
            lemma_walk_fields(fields, text, head.len() as int, 1);
            assert(text[(head.len() + body.len()) as int + 0] == seq![125u8][0]);
        },
        _ => {},
    }
}

/// Rendering and parsing are inverse to each other on readable trees: the
/// canonical text of such a tree is well formed and denotes that tree.
pub proof fn lemma_render_then_parse(shape: Shape)
    requires
        readable(shape),
    ensures
        parse_shape(shape.render()) == Some(shape),
    decreases shape,
{
    let text = shape.render();
    lemma_render_ends(shape);
    match shape {
        Shape::Primitive(p) => {
            Primitive::lemma_codes(p, p.spec_first());
        },
        Shape::Pointer(pointee) => {
            assert(text.skip(1) =~= pointee.render());
            lemma_render_then_parse(*pointee);
        },
        Shape::Struct(name, fields) => {
            let sep = 1 + name.len() as int;
            assert(text[sep] == 61);
            assert forall|k: int| 0 <= k < sep implies text[k] != 61 by {
                if k > 0 {
                    assert(text[k] == name[k - 1]);
                }
            }
            lemma_first_index(text, 61, 0);
            assert(first_index(text, 61, 0) == Some(sep));
            assert(text.subrange(1, sep) =~= name);
            assert(text.subrange(sep + 1, text.len() - 1) =~= render_all(fields));
            lemma_render_all_then_parse(fields);
        },
        _ => {},
    }
}

/// The texts of readable trees, one after the other, fall apart into
/// those trees again.
pub proof fn lemma_render_all_then_parse(fields: Seq<Shape>)
    requires
        all_readable(fields),
    ensures
        parse_fields(render_all(fields)) == Some(fields),
    decreases fields,
{
    if fields.len() == 0 {
        assert(fields =~= Seq::<Shape>::empty());
    } else {
        let first = fields[0].render();
        let rest = fields.drop_first();
        let text = render_all(fields);
        assert(all_readable(rest)) by {
            assert forall|i: int| 0 <= i < rest.len() implies readable(#[trigger] rest[i]) by {
                assert(rest[i] == fields[i + 1]);
            }
        }
        lemma_render_ends(fields[0]);
        lemma_scan_render(fields[0], render_all(rest));
        assert(text.take(first.len() as int) =~= first);
        assert(text.skip(first.len() as int) =~= render_all(rest));
        lemma_render_then_parse(fields[0]);
        lemma_render_all_then_parse(rest);
        assert(seq![fields[0]] + rest =~= fields);
    }
}

/// The two ways to compare a text with a tree agree on readable trees: a
/// text without qualifiers at its start parses to the tree exactly when it
/// is the canonical text of the tree.
pub proof fn lemma_comparisons_agree(text: Seq<u8>, shape: Shape)
    requires
        readable(shape),
        leading_qualifiers(text) == 0,
    ensures
        (parse_shape(text) == Some(shape)) <==> (strip_qualifiers(text) == shape.render()),
{
    assert(strip_qualifiers(text) =~= text);
    if parse_shape(text) == Some(shape) {
        lemma_parsed_text_is_canonical(text, shape);
    }
    if text == shape.render() {
        lemma_render_then_parse(shape);
    }
}

} // verus!
