//! The canonical text of an encoding as an owned string.
use crate::encoding::{shapes_of, Encoding};
use crate::shape::{lemma_render_all_take, render_all, Shape};
use crate::static_int_str;
use crate::static_int_str::{digits, lemma_digits_are_digits};
use crate::text::lemma_encode_utf8_concat;
use vstd::prelude::*;
use vstd::string::{StringExecFns, StringSliceAdditionalSpecFns};
use vstd::utf8::{encode_utf8, is_ascii_chars, is_ascii_chars_encode_utf8};

verus! {

broadcast use vstd::std_specs::vec::group_vec_axioms;

/// Whether `b` is a byte that the grammar itself writes: a digit, a byte of
/// a primitive code, or a piece of punctuation.
pub open spec fn is_text_byte(b: u8) -> bool {
    48 <= b <= 57 || b == 99 || b == 115 || b == 105 || b == 108 || b == 113 || b == 67
    || b == 83 || b == 73 || b == 76 || b == 81 || b == 102 || b == 100 || b == 68 || b == 106
    || b == 66 || b == 118 || b == 42 || b == 64 || b == 35 || b == 58 || b == 63 || b == 98
    || b == 94 || b == 91 || b == 93 || b == 123 || b == 125 || b == 40 || b == 41 || b == 61
}

/// A string of one ASCII character has that character as its one byte.
proof fn lemma_single_ascii(s: &str, c: char)
    requires
        s@.len() == 1,
        s@[0] == c,
        c <= '\u{7f}',
    ensures
        s.spec_bytes() == seq![c as u8],
{
    assert(is_ascii_chars(s@));
    is_ascii_chars_encode_utf8(s@);
    assert(s.spec_bytes() =~= seq![c as u8]);
}

/// The one-character string for a byte of the grammar.
fn ascii_str(b: u8) -> (s: &'static str)
    requires
        is_text_byte(b),
    ensures
        s.spec_bytes() == seq![b],
{
    if b == 48 {
        proof {
            reveal_strlit("0");
            lemma_single_ascii("0", '0');
        }
        "0"
    } else if b == 49 {
        proof {
            reveal_strlit("1");
            lemma_single_ascii("1", '1');
        }
        "1"
    } else if b == 50 {
        proof {
            reveal_strlit("2");
            lemma_single_ascii("2", '2');
        }
        "2"
    } else if b == 51 {
        proof {
            reveal_strlit("3");
            lemma_single_ascii("3", '3');
        }
        "3"
    } else if b == 52 {
        proof {
            reveal_strlit("4");
            lemma_single_ascii("4", '4');
        }
        "4"
    } else if b == 53 {
        proof {
            reveal_strlit("5");
            lemma_single_ascii("5", '5');
        }
        "5"
    } else if b == 54 {
        proof {
            reveal_strlit("6");
            lemma_single_ascii("6", '6');
        }
        "6"
    } else if b == 55 {
        proof {
            reveal_strlit("7");
            lemma_single_ascii("7", '7');
        }
        "7"
    } else if b == 56 {
        proof {
            reveal_strlit("8");
            lemma_single_ascii("8", '8');
        }
        "8"
    } else if b == 57 {
        proof {
            reveal_strlit("9");
            lemma_single_ascii("9", '9');
        }
        "9"
    } else if b == 99 {
        proof {
            reveal_strlit("c");
            lemma_single_ascii("c", 'c');
        }
        "c"
    } else if b == 115 {
        proof {
            reveal_strlit("s");
            lemma_single_ascii("s", 's');
        }
        "s"
    } else if b == 105 {
        proof {
            reveal_strlit("i");
            lemma_single_ascii("i", 'i');
        }
        "i"
    } else if b == 108 {
        proof {
            reveal_strlit("l");
            lemma_single_ascii("l", 'l');
        }
        "l"
    } else if b == 113 {
        proof {
            reveal_strlit("q");
            lemma_single_ascii("q", 'q');
        }
        "q"
    } else if b == 67 {
        proof {
            reveal_strlit("C");
            lemma_single_ascii("C", 'C');
        }
        "C"
    } else if b == 83 {
        proof {
            reveal_strlit("S");
            lemma_single_ascii("S", 'S');
        }
        "S"
    } else if b == 73 {
        proof {
            reveal_strlit("I");
            lemma_single_ascii("I", 'I');
        }
        "I"
    } else if b == 76 {
        proof {
            reveal_strlit("L");
            lemma_single_ascii("L", 'L');
        }
        "L"
    } else if b == 81 {
        proof {
            reveal_strlit("Q");
            lemma_single_ascii("Q", 'Q');
        }
        "Q"
    } else if b == 102 {
        proof {
            reveal_strlit("f");
            lemma_single_ascii("f", 'f');
        }
        "f"
    } else if b == 100 {
        proof {
            reveal_strlit("d");
            lemma_single_ascii("d", 'd');
        }
        "d"
    } else if b == 68 {
        proof {
            reveal_strlit("D");
            lemma_single_ascii("D", 'D');
        }
        "D"
    } else if b == 106 {
        proof {
            reveal_strlit("j");
            lemma_single_ascii("j", 'j');
        }
        "j"
    } else if b == 66 {
        proof {
            reveal_strlit("B");
            lemma_single_ascii("B", 'B');
        }
        "B"
    } else if b == 118 {
        proof {
            reveal_strlit("v");
            lemma_single_ascii("v", 'v');
        }
        "v"
    } else if b == 42 {
        proof {
            reveal_strlit("*");
            lemma_single_ascii("*", '*');
        }
        "*"
    } else if b == 64 {
        proof {
            reveal_strlit("@");
            lemma_single_ascii("@", '@');
        }
        "@"
    } else if b == 35 {
        proof {
            reveal_strlit("#");
            lemma_single_ascii("#", '#');
        }
        "#"
    } else if b == 58 {
        proof {
            reveal_strlit(":");
            lemma_single_ascii(":", ':');
        }
        ":"
    } else if b == 63 {
        proof {
            reveal_strlit("?");
            lemma_single_ascii("?", '?');
        }
        "?"
    } else if b == 98 {
        proof {
            reveal_strlit("b");
            lemma_single_ascii("b", 'b');
        }
        "b"
    } else if b == 94 {
        proof {
            reveal_strlit("^");
            lemma_single_ascii("^", '^');
        }
        "^"
    } else if b == 91 {
        proof {
            reveal_strlit("[");
            lemma_single_ascii("[", '[');
        }
        "["
    } else if b == 93 {
        proof {
            reveal_strlit("]");
            lemma_single_ascii("]", ']');
        }
        "]"
    } else if b == 123 {
        proof {
            reveal_strlit("{");
            lemma_single_ascii("{", '{');
        }
        "{"
    } else if b == 125 {
        proof {
            reveal_strlit("}");
            lemma_single_ascii("}", '}');
        }
        "}"
    } else if b == 40 {
        proof {
            reveal_strlit("(");
            lemma_single_ascii("(", '(');
        }
        "("
    } else if b == 41 {
        proof {
            reveal_strlit(")");
            lemma_single_ascii(")", ')');
        }
        ")"
    } else {
        proof {
            reveal_strlit("=");
            lemma_single_ascii("=", '=');
        }
        "="
    }
}

/// Appends `piece` to `out`.
fn push_text(out: &mut String, piece: &str)
    ensures
        encode_utf8(final(out)@) == encode_utf8(old(out)@) + piece.spec_bytes(),
{
    proof {
        lemma_encode_utf8_concat(out@, piece@);
    }
    out.append(piece);
}

/// Appends the byte `b` of the grammar to `out`.
fn push_byte(out: &mut String, b: u8)
    requires
        is_text_byte(b),
    ensures
        encode_utf8(final(out)@) == encode_utf8(old(out)@) + seq![b],
{
    push_text(out, ascii_str(b));
}

/// Appends the decimal digits of `n` to `out`.
fn push_digits(out: &mut String, n: usize)
    ensures
        encode_utf8(final(out)@) == encode_utf8(old(out)@) + digits(n as nat),
{
    let count: usize = static_int_str::end_str_len(n as u128);
    let arr: [u8; 39] = static_int_str::get_str_array::<39>(n as u128);
    let ghost text = digits(n as nat);
    let ghost start = encode_utf8(out@);
    proof {
        lemma_digits_are_digits(n as nat);
        assert(start + text.take(0) =~= start);
    }
    let mut i: usize = 0;
    while i < count
        invariant
            i <= count,
            count == text.len(),
            count <= 39,
            text == digits(n as nat),
            arr@.subrange(0, count as int) == text,
            forall|j: int| 0 <= j < text.len() ==> 48 <= #[trigger] text[j] <= 57,
            encode_utf8(out@) == start + text.take(i as int),
        decreases count - i,
    {
        let b: u8 = arr[i];
        proof {
            assert(arr@.subrange(0, count as int)[i as int] == arr@[i as int]);
            assert(b == text[i as int]);
            assert(start + text.take(i as int) + seq![b] =~= start + text.take(i + 1));
        }
        push_byte(out, b);
        i += 1;
    }
    proof {
        assert(text.take(i as int) =~= text);
    }
}

impl<'a> Encoding<'a> {
    /// Appends the canonical text of this encoding to `out`.
    pub fn write_to(&self, out: &mut String)
        ensures
            encode_utf8(final(out)@) == encode_utf8(old(out)@) + self@.render(),
        decreases *self,
    {
        let ghost start = encode_utf8(out@);
        match *self {
            Encoding::BitField(width) => {
                push_byte(out, 98u8);
                push_digits(out, width as usize);
                assert(start + seq![98u8] + digits(width as nat) =~= start + self@.render());
            },
            Encoding::Pointer(pointee) => {
                push_byte(out, 94u8);
                pointee.write_to(out);
                assert(start + seq![94u8] + pointee@.render() =~= start + self@.render());
            },
            Encoding::Array(len, item) => {
                push_byte(out, 91u8);
                push_digits(out, len);
                item.write_to(out);
                push_byte(out, 93u8);
                assert(start + seq![91u8] + digits(len as nat) + item@.render() + seq![93u8]
                    =~= start + self@.render());
            },
            Encoding::Struct(name, items) | Encoding::Union(name, items) => {
                let ghost fields = shapes_of(items@);
                let is_struct: bool = match *self {
                    Encoding::Struct(_, _) => true,
                    _ => false,
                };
                let open: u8 = if is_struct { 123u8 } else { 40u8 };
                let close: u8 = if is_struct { 125u8 } else { 41u8 };
                let ghost head = start + seq![open] + name.spec_bytes() + seq![61u8];
                push_byte(out, open);
                push_text(out, name);
                push_byte(out, 61u8);
                proof {
                    assert(fields.take(0) =~= Seq::<Shape>::empty());
                    assert(head + render_all(fields.take(0)) =~= head);
                }
                let mut i: usize = 0;
                while i < items.len()
                    invariant
                        i <= items@.len(),
                        fields == shapes_of(items@),
                        decreases_to!(*self => *items),
                        encode_utf8(out@) == head + render_all(fields.take(i as int)),
                    decreases items@.len() - i,
                {
                    proof {
                        lemma_render_all_take(fields, i as int);
                        assert(head + render_all(fields.take(i as int)) + fields[i as int].render()
                            =~= head + render_all(fields.take(i + 1)));
                    }
                    items[i].write_to(out);
                    i += 1;
                }
                push_byte(out, close);
                proof {
                    assert(fields.take(i as int) =~= fields);
                    assert(head + render_all(fields) + seq![close] =~= start + self@.render());
                }
            },
            _ => {
                let p = self.primitive();
                match p {
                    Some(prim) => {
                        push_byte(out, prim.first());
                        match prim.second() {
                            Some(b) => {
                                push_byte(out, b);
                                assert(start + seq![prim.spec_first()] + seq![b] =~= start
                                    + prim.spec_code());
                            },
                            None => {},
                        }
                    },
                    None => unreached(),
                }
            },
        }
    }

    /// The canonical text of this encoding.
    pub fn to_string(&self) -> (text: String)
        ensures
            encode_utf8(text@) == self@.render(),
    {
        let mut text = String::new();
        self.write_to(&mut text);
        assert(Seq::<u8>::empty() + self@.render() =~= self@.render());
        text
    }
}

} // verus!
