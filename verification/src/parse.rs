//! Classification, decomposition and validation of textual encodings.
//!
//! A text is well formed when it can be read as a tree: a primitive code of
//! one byte, a pointer to a well-formed text, or a struct whose field list
//! falls apart, scan by scan, into well-formed texts. Every field has to be
//! well formed by itself.
use crate::primitive::Primitive;
use crate::scan::{chomp, chomp_primitive, lemma_scan_len, scan_len};
use crate::shape::{lemma_render_ends, render_all, Shape};
use crate::text::{lemma_leading_qualifiers_is, split_str, strip_qualifiers};
use vstd::prelude::*;
use vstd::string::StringSliceAdditionalSpecFns;

verus! {

/// The form of a text as a whole.
#[derive(Clone, Copy, Debug, PartialEq, Eq, Structural)]
pub enum ParseResult {
    /// The text is the code of this primitive.
    Primitive(Primitive),
    /// The text starts with `^`.
    Pointer,
    /// The text starts with `{` and ends with `}`.
    Struct,
    /// The text has none of these forms.
    Error,
}

/// The form of the text `s` as a whole.
pub open spec fn classify(s: Seq<u8>) -> ParseResult {
    if s.len() > 0 && s[0] == 123 && s.last() == 125 {
        ParseResult::Struct
    } else if s.len() > 0 && s[0] == 94 {
        ParseResult::Pointer
    } else if s.len() == 1 {
        match Primitive::spec_from_byte(s[0]) {
            Some(p) => ParseResult::Primitive(p),
            None => ParseResult::Error,
        }
    } else {
        ParseResult::Error
    }
}

/// The first position from `from` on at which `s` holds the byte `b`.
pub open spec fn first_index(s: Seq<u8>, b: u8, from: int) -> Option<int>
    decreases s.len() - from,
{
    if from < 0 || from >= s.len() {
        None
    } else if s[from] == b {
        Some(from)
    } else {
        first_index(s, b, from + 1)
    }
}

/// The name and the field list of the struct text `s`: what stands between
/// the opening brace and the first `=`, and between that `=` and the
/// closing brace. A text without `=`, or one that is not in braces, has
/// neither.
pub open spec fn struct_parts(s: Seq<u8>) -> Option<(Seq<u8>, Seq<u8>)> {
    match first_index(s, 61, 0) {
        Some(sep) => if classify(s) is Struct && 1 <= sep <= s.len() - 2 {
            Some((s.subrange(1, sep), s.subrange(sep + 1, s.len() - 1)))
        } else {
            None
        },
        None => None,
    }
}

/// The tree that the text `s` denotes, if `s` is well formed.
pub open spec fn parse_shape(s: Seq<u8>) -> Option<Shape>
    decreases s.len(), 0nat,
{
    match classify(s) {
        ParseResult::Primitive(p) => Some(Shape::Primitive(p)),
        ParseResult::Pointer => if s.len() > 0 {
            match parse_shape(s.skip(1)) {
                Some(pointee) => Some(Shape::Pointer(Box::new(pointee))),
                None => None,
            }
        } else {
            None
        },
        ParseResult::Struct => match struct_parts(s) {
            Some((name, fields)) => if fields.len() < s.len() {
                match parse_fields(fields) {
                    Some(shapes) => Some(Shape::Struct(name, shapes)),
                    None => None,
                }
            } else {
                None
            },
            None => None,
        },
        ParseResult::Error => None,
    }
}

/// The trees that the field list `f` denotes, if `f` falls apart into
/// well-formed texts.
pub open spec fn parse_fields(f: Seq<u8>) -> Option<Seq<Shape>>
    decreases f.len(), 1nat,
{
    if f.len() == 0 {
        Some(Seq::empty())
    } else {
        match scan_len(f) {
            Some(n) => if 0 < n <= f.len() {
                match (parse_shape(f.take(n)), parse_fields(f.skip(n))) {
                    (Some(first), Some(rest)) => Some(seq![first] + rest),
                    _ => None,
                }
            } else {
                None
            },
            None => None,
        }
    }
}

/// Where `first_index` finds the byte, it stands there and nowhere before;
/// where it finds nothing, the byte does not occur from `from` on.
pub proof fn lemma_first_index(s: Seq<u8>, b: u8, from: int)
    requires
        0 <= from,
    ensures
        match first_index(s, b, from) {
            Some(i) => from <= i < s.len() && s[i] == b && forall|j: int|
                from <= j < i ==> s[j] != b,
            None => forall|j: int| from <= j < s.len() ==> s[j] != b,
        },
    decreases s.len() - from,
{
    if from < s.len() && s[from] != b {
        lemma_first_index(s, b, from + 1);
    }
}

/// Parsing and rendering are inverse to each other on well-formed texts:
/// a text that parses is the canonical text of its tree.
pub proof fn lemma_parse_then_render(s: Seq<u8>)
    ensures
        parse_shape(s) matches Some(shape) ==> shape.render() == s,
    decreases s.len(), 0nat,
{
    match classify(s) {
        ParseResult::Primitive(p) => {
            Primitive::lemma_codes(p, s[0]);
            assert(s =~= seq![s[0]]);
        },
        ParseResult::Pointer => {
            lemma_parse_then_render(s.skip(1));
            if parse_shape(s) is Some {
                assert(s =~= seq![94u8] + s.skip(1));
            }
        },
        ParseResult::Struct => {
            if parse_shape(s) is Some {
                let (name, fields) = struct_parts(s).unwrap();
                lemma_first_index(s, 61, 0);
                lemma_fields_then_render(fields);
                assert(s =~= seq![123u8] + name + seq![61u8] + fields + seq![125u8]);
            }
        },
        ParseResult::Error => {},
    }
}

/// A field list that parses is the canonical texts of its trees, one after
/// the other.
pub proof fn lemma_fields_then_render(f: Seq<u8>)
    ensures
        parse_fields(f) matches Some(shapes) ==> render_all(shapes) == f,
    decreases f.len(), 1nat,
{
    if f.len() == 0 {
        assert(render_all(Seq::<Shape>::empty()) =~= f);
    } else if parse_fields(f) is Some {
        let n = scan_len(f).unwrap();
        let first = parse_shape(f.take(n)).unwrap();
        let rest = parse_fields(f.skip(n)).unwrap();
        lemma_parse_then_render(f.take(n));
        lemma_fields_then_render(f.skip(n));
        let shapes = seq![first] + rest;
        assert(shapes[0] == first);
        assert(shapes.drop_first() =~= rest);
        assert(render_all(shapes) =~= f.take(n) + f.skip(n));
        assert(f.take(n) + f.skip(n) =~= f);
    }
}

/// The two ways to compare with a text agree on well-formed texts: a text
/// that parses to a tree is, with no qualifier to take off, the canonical
/// text of that tree.
pub proof fn lemma_parsed_text_is_canonical(s: Seq<u8>, shape: Shape)
    requires
        parse_shape(s) == Some(shape),
    ensures
        strip_qualifiers(s) == shape.render(),
{
    lemma_parse_then_render(s);
    lemma_render_ends(shape);
    lemma_leading_qualifiers_is(s, 0);
    assert(strip_qualifiers(s) =~= s);
}

/// The form of the text `s` as a whole.
pub fn parse(s: &str) -> (r: ParseResult)
    ensures
        r == classify(s.spec_bytes()),
{
    let text: &[u8] = s.as_bytes();
    let total: usize = text.len();
    if total > 0 && text[0] == 123 && text[total - 1] == 125 {
        ParseResult::Struct
    } else if total > 0 && text[0] == 94 {
        ParseResult::Pointer
    } else {
        let (h, t) = chomp_primitive(s);
        if t.as_bytes().len() != 0 {
            proof {
                if h is Some {
                    assert(s.spec_bytes().skip(1).len() == s.spec_bytes().len() - 1);
                }
            }
            ParseResult::Error
        } else {
            match h {
                Some(p) => {
                    assert(s.spec_bytes().skip(1).len() == s.spec_bytes().len() - 1);
                    ParseResult::Primitive(p)
                },
                None => ParseResult::Error,
            }
        }
    }
}

/// Takes a struct text apart into its name and its field list.
///
/// The text has to stand in braces. Without a `=` in it there is no name,
/// and the result is nothing.
pub fn parse_struct<'a>(s: &'a str) -> (r: Option<(&'a str, &'a str)>)
    requires
        classify(s.spec_bytes()) is Struct,
    ensures
        match struct_parts(s.spec_bytes()) {
            Some((name, fields)) => r matches Some(parts) && parts.0.spec_bytes() == name
                && parts.1.spec_bytes() == fields,
            None => r is None,
        },
{
    let text: &[u8] = s.as_bytes();
    let total: usize = text.len();
    let mut sep: usize = 0;
    while sep < total && text[sep] != 61
        invariant
            sep <= total,
            total == text@.len(),
            first_index(text@, 61, 0) == first_index(text@, 61, sep as int),
        decreases total - sep,
    {
        sep += 1;
    }
    if sep == total {
        return None;
    }
    proof {
        lemma_first_index(text@, 61, 0);
    }
    let (head, tail) = split_str(s, sep);
    let (_, name) = split_str(head, 1);
    let (_, after) = split_str(tail, 1);
    let (fields, _) = split_str(after, after.as_bytes().len() - 1);
    proof {
        assert(name.spec_bytes() =~= text@.subrange(1, sep as int));
        assert(fields.spec_bytes() =~= text@.subrange(sep + 1, total - 1));
    }
    Some((name, fields))
}

/// Whether the text `s` is well formed.
pub fn is_valid(s: &str) -> (r: bool)
    ensures
        r == parse_shape(s.spec_bytes()) is Some,
    decreases s.spec_bytes().len(),
{
    match parse(s) {
        ParseResult::Primitive(_) => true,
        ParseResult::Pointer => {
            let (_, pointee) = split_str(s, 1);
            is_valid(pointee)
        },
        ParseResult::Struct => {
            let mut fields: &str = match parse_struct(s) {
                Some((_, fields)) => fields,
                None => {
                    return false;
                },
            };
            while fields.as_bytes().len() != 0
                invariant
                    fields.spec_bytes().len() < s.spec_bytes().len(),
                    parse_shape(s.spec_bytes()) is Some <==> parse_fields(
                        fields.spec_bytes(),
                    ) is Some,
                decreases fields.spec_bytes().len(),
            {
                proof {
                    lemma_scan_len(fields.spec_bytes());
                }
                let (h, t) = chomp(fields);
                match h {
                    Some(field) => {
                        if !is_valid(field) {
                            return false;
                        }
                    },
                    None => {
                        return false;
                    },
                }
                fields = t;
            }
            true
        },
        ParseResult::Error => false,
    }
}

} // verus!
