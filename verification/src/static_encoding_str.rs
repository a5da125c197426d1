//! Rendering an encoding into a fixed-size byte array, in two passes: the
//! exact length first, then the bytes.
use crate::encoding::{shapes_of, Encoding};
use crate::shape::{lemma_render_all_take, render_all, Shape};
use crate::static_int_str;
use crate::static_int_str::digits;
use vstd::prelude::*;
use vstd::string::StringSliceAdditionalSpecFns;

verus! {

broadcast use vstd::std_specs::vec::group_vec_axioms;

/// `buf` with `data` written over it from position `at` on.
pub open spec fn overwrite(buf: Seq<u8>, at: int, data: Seq<u8>) -> Seq<u8> {
    buf.subrange(0, at) + data + buf.subrange(at + data.len(), buf.len() as int)
}

/// Copies `data` into `res` from position `at` on and returns the position
/// behind it.
fn put_bytes<const LEN: usize>(res: &mut [u8; LEN], at: usize, data: &[u8]) -> (end: usize)
    requires
        at + data@.len() <= LEN,
    ensures
        end == at + data@.len(),
        final(res)@ == overwrite(old(res)@, at as int, data@),
{
    let mut i: usize = 0;
    while i < data.len()
        invariant
            i <= data@.len(),
            at + data@.len() <= LEN,
            res@ == overwrite(old(res)@, at as int, data@.take(i as int)),
        decreases data@.len() - i,
    {
        let b: u8 = data[i];
        res[at + i] = b;
        i += 1;
        assert(res@ =~= overwrite(old(res)@, at as int, data@.take(i as int)));
    }
    assert(data@.take(i as int) =~= data@);
    assert(res@ =~= overwrite(old(res)@, at as int, data@)) by {
        assert(old(res)@.len() == LEN);
    }
    at + i
}

/// Writes the byte `b` into `res` at position `at` and returns the position
/// behind it.
fn put_byte<const LEN: usize>(res: &mut [u8; LEN], at: usize, b: u8) -> (end: usize)
    requires
        at < LEN,
    ensures
        end == at + 1,
        final(res)@ == overwrite(old(res)@, at as int, seq![b]),
{
    res[at] = b;
    assert(res@ =~= overwrite(old(res)@, at as int, seq![b]));
    at + 1
}

/// Writing `a` and then `b` behind it is writing `a + b`.
pub proof fn lemma_overwrite_append(buf: Seq<u8>, at: int, a: Seq<u8>, b: Seq<u8>)
    requires
        0 <= at,
        at + a.len() + b.len() <= buf.len(),
    ensures
        overwrite(overwrite(buf, at, a), at + a.len(), b) == overwrite(buf, at, a + b),
{
    assert(overwrite(overwrite(buf, at, a), at + a.len(), b) =~= overwrite(buf, at, a + b));
}

/// Writes the decimal digits of `n` into `res` from position `at` on and
/// returns the position behind them.
fn put_digits<const LEN: usize>(res: &mut [u8; LEN], at: usize, n: usize) -> (end: usize)
    requires
        at + digits(n as nat).len() <= LEN,
    ensures
        end == at + digits(n as nat).len(),
        final(res)@ == overwrite(old(res)@, at as int, digits(n as nat)),
{
    let count: usize = static_int_str::end_str_len(n as u128);
    let arr: [u8; 39] = static_int_str::get_str_array::<39>(n as u128);
    let all: &[u8] = vstd::array::array_as_slice(&arr);
    let text: &[u8] = vstd::slice::slice_subrange(all, 0, count);
    put_bytes(res, at, text)
}

impl<'a> Encoding<'a> {
    /// Writes the canonical text into `res` from position `at` on, leaves
    /// the other bytes as they are, and returns the position behind the text.
    pub fn fill<const LEN: usize>(self, res: &mut [u8; LEN], at: usize) -> (end: usize)
        requires
            at + self@.render().len() <= LEN,
        ensures
            end == at + self@.render().len(),
            final(res)@ == overwrite(old(res)@, at as int, self@.render()),
        decreases self,
    {
        let ghost start = res@;
        match self {
            Encoding::BitField(width) => {
                let pos: usize = put_byte(res, at, 98u8);
                let end: usize = put_digits(res, pos, width as usize);
                proof {
                    lemma_overwrite_append(start, at as int, seq![98u8], digits(width as nat));
                }
                end
            },
            Encoding::Pointer(pointee) => {
                let pos: usize = put_byte(res, at, 94u8);
                let end: usize = pointee.fill(res, pos);
                proof {
                    lemma_overwrite_append(start, at as int, seq![94u8], pointee@.render());
                }
                end
            },
            Encoding::Array(len, item) => {
                let pos: usize = put_byte(res, at, 91u8);
                let pos: usize = put_digits(res, pos, len);
                let pos: usize = item.fill(res, pos);
                let end: usize = put_byte(res, pos, 93u8);
                proof {
                    let a = seq![91u8];
                    let b = digits(len as nat);
                    let c = item@.render();
                    lemma_overwrite_append(start, at as int, a, b);
                    lemma_overwrite_append(start, at as int, a + b, c);
                    lemma_overwrite_append(start, at as int, a + b + c, seq![93u8]);
                }
                end
            },
            Encoding::Struct(name, items) | Encoding::Union(name, items) => {
                let ghost fields = shapes_of(items@);
                let is_struct: bool = match self {
                    Encoding::Struct(_, _) => true,
                    _ => false,
                };
                let open: u8 = if is_struct { 123u8 } else { 40u8 };
                let close: u8 = if is_struct { 125u8 } else { 41u8 };
                let ghost head = seq![open] + name.spec_bytes() + seq![61u8];
                assert(self@.render() =~= head + render_all(fields) + seq![close]);
                let pos: usize = put_byte(res, at, open);
                let pos: usize = put_bytes(res, pos, name.as_bytes());
                proof {
                    lemma_overwrite_append(start, at as int, seq![open], name.spec_bytes());
                }
                let mut pos: usize = put_byte(res, pos, 61u8);
                proof {
                    lemma_overwrite_append(
                        start,
                        at as int,
                        seq![open] + name.spec_bytes(),
                        seq![61u8],
                    );
                    assert(fields.take(0) =~= Seq::<Shape>::empty());
                    assert(head + render_all(fields.take(0)) =~= head);
                }
                let mut i: usize = 0;
                while i < items.len()
                    invariant
                        i <= items@.len(),
                        fields == shapes_of(items@),
                        decreases_to!(self => *items),
                        start.len() == LEN,
                        pos == at + head.len() + render_all(fields.take(i as int)).len(),
                        at + head.len() + render_all(fields).len() + 1 <= LEN,
                        res@ == overwrite(
                            start,
                            at as int,
                            head + render_all(fields.take(i as int)),
                        ),
                    decreases items@.len() - i,
                {
                    proof {
                        lemma_render_all_take(fields, i as int);
                        lemma_overwrite_append(
                            start,
                            at as int,
                            head + render_all(fields.take(i as int)),
                            fields[i as int].render(),
                        );
                        assert(head + render_all(fields.take(i as int)) + fields[i as int].render()
                            =~= head + render_all(fields.take(i + 1)));
                    }
                    pos = items[i].fill(res, pos);
                    i += 1;
                }
                assert(fields.take(i as int) =~= fields);
                let end: usize = put_byte(res, pos, close);
                proof {
                    lemma_overwrite_append(
                        start,
                        at as int,
                        head + render_all(fields),
                        seq![close],
                    );
                }
                end
            },
            _ => {
                let p = self.primitive();
                match p {
                    Some(prim) => {
                        let pos: usize = put_byte(res, at, prim.first());
                        match prim.second() {
                            Some(b) => {
                                let end: usize = put_byte(res, pos, b);
                                proof {
                                    lemma_overwrite_append(
                                        start,
                                        at as int,
                                        seq![prim.spec_first()],
                                        seq![b],
                                    );
                                    assert(seq![prim.spec_first()] + seq![b] =~= prim.spec_code());
                                }
                                end
                            },
                            None => pos,
                        }
                    },
                    None => unreached(),
                }
            },
        }
    }

    /// The fill pass: the canonical text at the start of an array of `LEN`
    /// bytes, with zero bytes behind it.
    ///
    /// The array must have room for the text: `LEN` is at least
    /// `end_str_len()`.
    pub fn get_str_array<const LEN: usize>(self) -> (res: [u8; LEN])
        requires
            self@.render().len() <= LEN,
        ensures
            res@.subrange(0, self@.render().len() as int) == self@.render(),
            forall|i: int| self@.render().len() <= i < LEN ==> res[i] == 0,
    {
        let mut res: [u8; LEN] = [0u8; LEN];
        self.fill(&mut res, 0);
        assert(res@.subrange(0, self@.render().len() as int) =~= self@.render());
        res
    }

    /// The canonical text with a nul byte behind it, at the start of an
    /// array of `RES` bytes that is zero from there on.
    ///
    /// The array must have room for the text and the nul byte: `RES` is at
    /// least `end_cstr_len()`.
    pub fn get_cstr_array<const RES: usize>(self) -> (res: [u8; RES])
        requires
            self@.render().len() < RES,
        ensures
            res@.subrange(0, self@.render().len() as int) == self@.render(),
            res[self@.render().len() as int] == 0,
            forall|i: int| self@.render().len() <= i < RES ==> res[i] == 0,
    {
        self.get_str_array::<RES>()
    }

    /// The length pass: the number of bytes of the canonical text.
    ///
    /// The length has to fit the machine's `usize`.
    pub fn end_str_len(self) -> (len: usize)
        requires
            self@.render().len() <= usize::MAX,
        ensures
            len == self@.render().len(),
        decreases self,
    {
        match self {
            Encoding::BitField(width) => 1 + static_int_str::end_str_len(width as u128),
            Encoding::Pointer(pointee) => 1 + pointee.end_str_len(),
            Encoding::Array(len, item) => {
                1 + static_int_str::end_str_len(len as u128) + item.end_str_len() + 1
            },
            Encoding::Struct(name, items) | Encoding::Union(name, items) => {
                let ghost fields = shapes_of(items@);
                assert(self@.render().len() == 1 + name.spec_bytes().len() + 1 + render_all(
                    fields,
                ).len() + 1);
                let mut res: usize = 1 + name.len() + 1;
                let mut i: usize = 0;
                assert(fields.take(0) =~= Seq::<Shape>::empty());
                while i < items.len()
                    invariant
                        i <= items@.len(),
                        fields == shapes_of(items@),
                        decreases_to!(self => *items),
                        res == 2 + name.spec_bytes().len() + render_all(fields.take(i as int)).len(),
                        2 + name.spec_bytes().len() + render_all(fields).len() + 1 <= usize::MAX,
                    decreases items@.len() - i,
                {
                    proof {
                        lemma_render_all_take(fields, i as int);
                    }
                    res += items[i].end_str_len();
                    i += 1;
                }
                assert(fields.take(i as int) =~= fields);
                res + 1
            },
            _ => {
                let p = self.primitive();
                match p {
                    Some(prim) => match prim.second() {
                        Some(_) => 2,
                        None => 1,
                    },
                    None => unreached(),
                }
            },
        }
    }

    /// The length of the canonical text with a nul byte behind it.
    pub fn end_cstr_len(self) -> (len: usize)
        requires
            self@.render().len() < usize::MAX,
        ensures
            len == self@.render().len() + 1,
    {
        self.end_str_len() + 1
    }
}

} // verus!
