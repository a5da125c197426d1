//! The fixed vocabulary of codes that stand for themselves.
use vstd::prelude::*;

verus! {

/// An encoding without parts: a scalar type or one of the special markers.
#[derive(Clone, Copy, Debug, PartialEq, Eq, Structural)]
pub enum Primitive {
    Char,
    Short,
    Int,
    Long,
    LongLong,
    UChar,
    UShort,
    UInt,
    ULong,
    ULongLong,
    Float,
    Double,
    LongDouble,
    FloatComplex,
    DoubleComplex,
    LongDoubleComplex,
    Bool,
    Void,
    String,
    Object,
    Block,
    Class,
    Sel,
    Unknown,
}

impl Primitive {
    /// The first byte of the code.
    pub open spec fn spec_first(self) -> u8 {
        match self {
            Primitive::Char => 99,
            Primitive::Short => 115,
            Primitive::Int => 105,
            Primitive::Long => 108,
            Primitive::LongLong => 113,
            Primitive::UChar => 67,
            Primitive::UShort => 83,
            Primitive::UInt => 73,
            Primitive::ULong => 76,
            Primitive::ULongLong => 81,
            Primitive::Float => 102,
            Primitive::Double => 100,
            Primitive::LongDouble => 68,
            Primitive::FloatComplex => 106,
            Primitive::DoubleComplex => 106,
            Primitive::LongDoubleComplex => 106,
            Primitive::Bool => 66,
            Primitive::Void => 118,
            Primitive::String => 42,
            Primitive::Object => 64,
            Primitive::Block => 64,
            Primitive::Class => 35,
            Primitive::Sel => 58,
            Primitive::Unknown => 63,
        }
    }

    /// The second byte of the code, for the four codes that have one.
    pub open spec fn spec_second(self) -> Option<u8> {
        match self {
            Primitive::FloatComplex => Some(102u8),
            Primitive::DoubleComplex => Some(100u8),
            Primitive::LongDoubleComplex => Some(68u8),
            Primitive::Block => Some(63u8),
            _ => None,
        }
    }

    /// The code as text: one byte, or two for a complex number and a block.
    pub open spec fn spec_code(self) -> Seq<u8> {
        match self.spec_second() {
            Some(b) => seq![self.spec_first(), b],
            None => seq![self.spec_first()],
        }
    }

    /// The primitive whose whole code is the single byte `b`, if there is one.
    pub open spec fn spec_from_byte(b: u8) -> Option<Primitive> {
        if b == 99 {
            Some(Primitive::Char)
        } else if b == 115 {
            Some(Primitive::Short)
        } else if b == 105 {
            Some(Primitive::Int)
        } else if b == 108 {
            Some(Primitive::Long)
        } else if b == 113 {
            Some(Primitive::LongLong)
        } else if b == 67 {
            Some(Primitive::UChar)
        } else if b == 83 {
            Some(Primitive::UShort)
        } else if b == 73 {
            Some(Primitive::UInt)
        } else if b == 76 {
            Some(Primitive::ULong)
        } else if b == 81 {
            Some(Primitive::ULongLong)
        } else if b == 102 {
            Some(Primitive::Float)
        } else if b == 100 {
            Some(Primitive::Double)
        } else if b == 68 {
            Some(Primitive::LongDouble)
        } else if b == 66 {
            Some(Primitive::Bool)
        } else if b == 118 {
            Some(Primitive::Void)
        } else if b == 42 {
            Some(Primitive::String)
        } else if b == 64 {
            Some(Primitive::Object)
        } else if b == 35 {
            Some(Primitive::Class)
        } else if b == 58 {
            Some(Primitive::Sel)
        } else if b == 63 {
            Some(Primitive::Unknown)
        } else {
            None
        }
    }

    /// `spec_from_byte` finds exactly the primitives with a one-byte code,
    /// and every code byte is ASCII.
    pub proof fn lemma_codes(p: Primitive, b: u8)
        ensures
            Primitive::spec_from_byte(b) == Some(p) <==> p.spec_code() == seq![b],
            p.spec_first() < 128,
            p.spec_second() matches Some(c) ==> c < 128,
            1 <= p.spec_code().len() <= 2,
    {
        if p.spec_code() == seq![b] {
            assert(p.spec_code().len() == 1);
            assert(p.spec_code()[0] == b);
        }
        if Primitive::spec_from_byte(b) == Some(p) {
            assert(p.spec_code() =~= seq![b]);
        }
    }

    /// The first byte of the code.
    pub fn first(self) -> (b: u8)
        ensures
            b == self.spec_first(),
    {
        match self {
            Primitive::Char => 99,
            Primitive::Short => 115,
            Primitive::Int => 105,
            Primitive::Long => 108,
            Primitive::LongLong => 113,
            Primitive::UChar => 67,
            Primitive::UShort => 83,
            Primitive::UInt => 73,
            Primitive::ULong => 76,
            Primitive::ULongLong => 81,
            Primitive::Float => 102,
            Primitive::Double => 100,
            Primitive::LongDouble => 68,
            Primitive::FloatComplex => 106,
            Primitive::DoubleComplex => 106,
            Primitive::LongDoubleComplex => 106,
            Primitive::Bool => 66,
            Primitive::Void => 118,
            Primitive::String => 42,
            Primitive::Object => 64,
            Primitive::Block => 64,
            Primitive::Class => 35,
            Primitive::Sel => 58,
            Primitive::Unknown => 63,
        }
    }

    /// The second byte of the code, for the four codes that have one.
    pub fn second(self) -> (b: Option<u8>)
        ensures
            b == self.spec_second(),
    {
        match self {
            Primitive::FloatComplex => Some(102u8),
            Primitive::DoubleComplex => Some(100u8),
            Primitive::LongDoubleComplex => Some(68u8),
            Primitive::Block => Some(63u8),
            _ => None,
        }
    }

    /// The primitive whose whole code is the single byte `b`, if there is one.
    pub fn from_byte(b: u8) -> (r: Option<Primitive>)
        ensures
            r == Primitive::spec_from_byte(b),
    {
        if b == 99 {
            Some(Primitive::Char)
        } else if b == 115 {
            Some(Primitive::Short)
        } else if b == 105 {
            Some(Primitive::Int)
        } else if b == 108 {
            Some(Primitive::Long)
        } else if b == 113 {
            Some(Primitive::LongLong)
        } else if b == 67 {
            Some(Primitive::UChar)
        } else if b == 83 {
            Some(Primitive::UShort)
        } else if b == 73 {
            Some(Primitive::UInt)
        } else if b == 76 {
            Some(Primitive::ULong)
        } else if b == 81 {
            Some(Primitive::ULongLong)
        } else if b == 102 {
            Some(Primitive::Float)
        } else if b == 100 {
            Some(Primitive::Double)
        } else if b == 68 {
            Some(Primitive::LongDouble)
        } else if b == 66 {
            Some(Primitive::Bool)
        } else if b == 118 {
            Some(Primitive::Void)
        } else if b == 42 {
            Some(Primitive::String)
        } else if b == 64 {
            Some(Primitive::Object)
        } else if b == 35 {
            Some(Primitive::Class)
        } else if b == 58 {
            Some(Primitive::Sel)
        } else if b == 63 {
            Some(Primitive::Unknown)
        } else {
            None
        }
    }
}

} // verus!
