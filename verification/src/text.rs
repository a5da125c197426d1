//! Facts about byte texts that the scanner, the comparison and the renderer
//! share: prefixes, leading qualifiers, and UTF-8 character boundaries.
use vstd::prelude::*;
use vstd::string::StringSliceAdditionalSpecFns;
use vstd::utf8::{
    encode_utf8, encode_utf8_valid_utf8, is_char_boundary, is_char_boundary_iff_not_is_continuation_byte,
    is_char_boundary_start_end_of_seq, valid_utf8, valid_utf8_split,
};

verus! {

/// `data` stands in `text` at position `at`.
pub open spec fn starts_at(text: Seq<u8>, at: int, data: Seq<u8>) -> bool {
    &&& 0 <= at
    &&& at + data.len() <= text.len()
    &&& text.subrange(at, at + data.len()) == data
}

/// A text made of two parts stands at `at` exactly when the first part
/// stands there and the second stands right behind it.
pub proof fn lemma_starts_at_append(text: Seq<u8>, at: int, a: Seq<u8>, b: Seq<u8>)
    requires
        0 <= at,
    ensures
        starts_at(text, at, a + b) <==> starts_at(text, at, a) && starts_at(
            text,
            at + a.len(),
            b,
        ),
{
    if starts_at(text, at, a + b) {
        let whole = text.subrange(at, at + (a + b).len());
        assert(text.subrange(at, at + a.len()) =~= whole.subrange(0, a.len() as int));
        assert(whole.subrange(0, a.len() as int) =~= a);
        assert(text.subrange(at + a.len(), at + a.len() + b.len()) =~= whole.subrange(
            a.len() as int,
            (a + b).len() as int,
        ));
        assert(whole.subrange(a.len() as int, (a + b).len() as int) =~= b);
    }
    if starts_at(text, at, a) && starts_at(text, at + a.len(), b) {
        assert(text.subrange(at, at + (a + b).len()) =~= text.subrange(at, at + a.len())
            + text.subrange(at + a.len(), at + a.len() + b.len()));
    }
}

/// Whether `b` is one of the type qualifiers that may stand in front of an
/// encoding: `r` (const), `n` (in), `N` (inout), `o` (out), `O` (bycopy),
/// `R` (byref), `V` (oneway).
pub open spec fn is_qualifier(b: u8) -> bool {
    b == 114 || b == 110 || b == 78 || b == 111 || b == 79 || b == 82 || b == 86
}

/// The number of qualifiers at the start of `s`.
pub open spec fn leading_qualifiers(s: Seq<u8>) -> nat
    decreases s.len(),
{
    if s.len() > 0 && is_qualifier(s[0]) {
        1 + leading_qualifiers(s.drop_first())
    } else {
        0
    }
}

/// `s` without the qualifiers at its start.
pub open spec fn strip_qualifiers(s: Seq<u8>) -> Seq<u8> {
    s.subrange(leading_qualifiers(s) as int, s.len() as int)
}

/// A run of qualifiers followed by a byte that is none is the whole run of
/// leading qualifiers.
pub proof fn lemma_leading_qualifiers_is(s: Seq<u8>, n: int)
    requires
        0 <= n <= s.len(),
        forall|i: int| 0 <= i < n ==> is_qualifier(#[trigger] s[i]),
        n < s.len() ==> !is_qualifier(s[n]),
    ensures
        leading_qualifiers(s) == n,
    decreases s.len(),
{
    if n > 0 {
        let rest = s.drop_first();
        assert(is_qualifier(s[0]));
        assert forall|i: int| 0 <= i < n - 1 implies is_qualifier(#[trigger] rest[i]) by {
            assert(rest[i] == s[i + 1]);
        }
        lemma_leading_qualifiers_is(rest, n - 1);
    }
}

/// Whether `b` is one of the type qualifiers.
pub fn qualifier(b: u8) -> (r: bool)
    ensures
        r == is_qualifier(b),
{
    b == 114 || b == 110 || b == 78 || b == 111 || b == 79 || b == 82 || b == 86
}

/// The number of qualifiers at the start of `text`.
pub fn skip_qualifiers(text: &[u8]) -> (n: usize)
    ensures
        n == leading_qualifiers(text@),
        n <= text@.len(),
{
    let mut i: usize = 0;
    while i < text.len() && qualifier(text[i])
        invariant
            i <= text@.len(),
            forall|j: int| 0 <= j < i ==> is_qualifier(#[trigger] text@[j]),
        decreases text@.len() - i,
    {
        i += 1;
    }
    proof {
        lemma_leading_qualifiers_is(text@, i as int);
    }
    i
}

/// Whether `data` stands in `text` at position `at`.
pub fn match_bytes(text: &[u8], at: usize, data: &[u8]) -> (r: bool)
    requires
        at <= text@.len(),
    ensures
        r == starts_at(text@, at as int, data@),
{
    if data.len() > text.len() - at {
        return false;
    }
    let total: usize = text.len();
    let mut i: usize = 0;
    while i < data.len()
        invariant
            i <= data@.len(),
            total == text@.len(),
            at + data@.len() <= text@.len(),
            forall|j: int| 0 <= j < i ==> text@[at + j] == data@[j],
        decreases data@.len() - i,
    {
        if text[at + i] != data[i] {
            proof {
                let part = text@.subrange(at as int, at + data@.len());
                assert(part[i as int] == text@[at + i]);
            }
            return false;
        }
        i += 1;
    }
    assert(text@.subrange(at as int, at + data@.len()) =~= data@);
    true
}

/// Whether two byte texts are the same.
pub fn bytes_eq(a: &[u8], b: &[u8]) -> (r: bool)
    ensures
        r == (a@ == b@),
{
    if a.len() != b.len() {
        return false;
    }
    let r: bool = match_bytes(a, 0, b);
    proof {
        if r {
            assert(a@.subrange(0, b@.len() as int) =~= a@);
        } else if a@ == b@ {
            assert(a@.subrange(0, b@.len() as int) =~= a@);
        }
    }
    r
}

/// In valid UTF-8, the position behind an ASCII byte is a character
/// boundary, and so is the position of the ASCII byte itself.
pub proof fn lemma_boundary_at_ascii(bytes: Seq<u8>, i: int)
    requires
        valid_utf8(bytes),
        0 <= i < bytes.len(),
        bytes[i] < 128,
    ensures
        is_char_boundary(bytes, i),
        is_char_boundary(bytes, i + 1),
{
    is_char_boundary_iff_not_is_continuation_byte(bytes, i);
    valid_utf8_split(bytes, i);
    let suffix = bytes.subrange(i, bytes.len() as int);
    assert(suffix[0] == bytes[i]);
    assert(valid_utf8(suffix));
    let rest = vstd::utf8::pop_first_scalar(suffix);
    assert(rest =~= bytes.subrange(i + 1, bytes.len() as int));
    assert(valid_utf8(rest));
    if i + 1 == bytes.len() {
        is_char_boundary_start_end_of_seq(bytes);
    } else {
        assert(is_char_boundary(rest, 0));
        is_char_boundary_iff_not_is_continuation_byte(rest, 0);
        assert(rest[0] == bytes[i + 1]);
        is_char_boundary_iff_not_is_continuation_byte(bytes, i + 1);
    }
}

/// Splits `s` at the byte position `at`, which lies at an end of `s` or next
/// to an ASCII byte.
pub fn split_str<'a>(s: &'a str, at: usize) -> (parts: (&'a str, &'a str))
    requires
        at <= s.spec_bytes().len(),
        at == 0 || s.spec_bytes()[at - 1] < 128 || (at < s.spec_bytes().len()
            && s.spec_bytes()[at as int] < 128),
    ensures
        parts.0.spec_bytes() == s.spec_bytes().take(at as int),
        parts.1.spec_bytes() == s.spec_bytes().skip(at as int),
{
    proof {
        let bytes = s.spec_bytes();
        encode_utf8_valid_utf8(s@);
        if at == 0 {
            is_char_boundary_start_end_of_seq(bytes);
        } else if bytes[at - 1] < 128 {
            lemma_boundary_at_ascii(bytes, at - 1);
        } else {
            lemma_boundary_at_ascii(bytes, at as int);
        }
    }
    let parts = s.split_at(at);
    assert(parts.0.spec_bytes() =~= s.spec_bytes().take(at as int));
    assert(parts.1.spec_bytes() =~= s.spec_bytes().skip(at as int));
    parts
}

/// The UTF-8 form of two texts, one after the other, is the UTF-8 form of
/// the first followed by that of the second.
pub proof fn lemma_encode_utf8_concat(a: Seq<char>, b: Seq<char>)
    ensures
        encode_utf8(a + b) == encode_utf8(a) + encode_utf8(b),
    decreases a.len(),
{
    if a.len() == 0 {
        assert(a + b =~= b);
        assert(encode_utf8(a) + encode_utf8(b) =~= encode_utf8(b));
    } else {
        assert((a + b).drop_first() =~= a.drop_first() + b);
        assert((a + b)[0] == a[0]);
        lemma_encode_utf8_concat(a.drop_first(), b);
        assert(encode_utf8(a + b) =~= encode_utf8(a) + encode_utf8(b));
    }
}

} // verus!
