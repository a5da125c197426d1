//! The scanner: finds where the first complete encoding in a text ends.
//!
//! The scanner knows pointers (`^` and an encoding), structs (from `{` to
//! the `}` that closes it) and the primitive codes of one byte.
use crate::primitive::Primitive;
use crate::text::split_str;
use vstd::prelude::*;
use vstd::string::StringSliceAdditionalSpecFns;

verus! {

/// Scanning `s` from position `i` with `depth` braces open: the position
/// behind the `}` that closes the last of them, if the text gets there.
pub open spec fn brace_end(s: Seq<u8>, i: int, depth: int) -> Option<int>
    decreases s.len() - i,
{
    if i < 0 || i >= s.len() {
        None
    } else {
        let d = if s[i] == 123 {
            depth + 1
        } else if s[i] == 125 {
            depth - 1
        } else {
            depth
        };
        if d == 0 {
            Some(i + 1)
        } else {
            brace_end(s, i + 1, d)
        }
    }
}

/// The length of the struct at the start of `s`: from its `{` to the `}`
/// that balances it.
pub open spec fn struct_len(s: Seq<u8>) -> Option<int> {
    if s.len() > 0 && s[0] == 123 {
        brace_end(s, 1, 1)
    } else {
        None
    }
}

/// The length of the shortest prefix of `s` that is one complete encoding.
pub open spec fn scan_len(s: Seq<u8>) -> Option<int>
    decreases s.len(),
{
    if s.len() == 0 {
        None
    } else if s[0] == 94 {
        match scan_len(s.skip(1)) {
            Some(n) => Some(n + 1),
            None => None,
        }
    } else if s[0] == 123 {
        brace_end(s, 1, 1)
    } else if Primitive::spec_from_byte(s[0]) is Some {
        Some(1)
    } else {
        None
    }
}

/// The length of the pointer at the start of `s`: its `^` and the encoding
/// behind it.
pub open spec fn pointer_len(s: Seq<u8>) -> Option<int> {
    if s.len() > 0 && s[0] == 94 {
        scan_len(s)
    } else {
        None
    }
}

/// A brace scan that succeeds ends inside the text, behind a `}`.
pub proof fn lemma_brace_end(s: Seq<u8>, i: int, depth: int)
    requires
        0 <= i,
        1 <= depth,
    ensures
        brace_end(s, i, depth) matches Some(n) ==> i < n <= s.len() && s[n - 1] == 125,
    decreases s.len() - i,
{
    if i < s.len() {
        let d = if s[i] == 123 {
            depth + 1
        } else if s[i] == 125 {
            depth - 1
        } else {
            depth
        };
        if d != 0 {
            lemma_brace_end(s, i + 1, d);
        }
    }
}

/// A scan that succeeds takes at least one byte, stays inside the text and
/// ends behind an ASCII byte.
pub proof fn lemma_scan_len(s: Seq<u8>)
    ensures
        scan_len(s) matches Some(n) ==> 1 <= n <= s.len() && s[n - 1] < 128,
    decreases s.len(),
{
    if s.len() > 0 {
        if s[0] == 94 {
            lemma_scan_len(s.skip(1));
        } else if s[0] == 123 {
            lemma_brace_end(s, 1, 1);
        }
    }
}

/// The length of the struct at the start of `s`, if `s` starts with `{` and
/// its braces balance.
pub fn chomp_struct(s: &str) -> (r: Option<usize>)
    ensures
        match r {
            Some(n) => struct_len(s.spec_bytes()) == Some(n as int),
            None => struct_len(s.spec_bytes()) is None,
        },
{
    let text: &[u8] = s.as_bytes();
    let total: usize = text.len();
    if total == 0 || text[0] != 123 {
        return None;
    }
    let mut depth: usize = 1;
    let mut i: usize = 1;
    while i < total
        invariant
            1 <= i <= total,
            total == text@.len(),
            text@ == s.spec_bytes(),
            text@[0] == 123,
            1 <= depth <= i,
            brace_end(text@, 1, 1) == brace_end(text@, i as int, depth as int),
        decreases total - i,
    {
        let b: u8 = text[i];
        if b == 123 {
            depth += 1;
        } else if b == 125 {
            depth -= 1;
        }
        if depth == 0 {
            return Some(i + 1);
        }
        i += 1;
    }
    None
}

/// The primitive whose code is the first byte of `s`, and the rest of `s`
/// behind that byte; nothing, and all of `s`, where `s` is empty or starts
/// with another byte.
pub fn chomp_primitive<'a>(s: &'a str) -> (r: (Option<Primitive>, &'a str))
    ensures
        s.spec_bytes().len() == 0 ==> r.0 is None,
        s.spec_bytes().len() > 0 ==> r.0 == Primitive::spec_from_byte(s.spec_bytes()[0]),
        r.0 is Some ==> r.1.spec_bytes() == s.spec_bytes().skip(1),
        r.0 is None ==> r.1 == s,
{
    let text: &[u8] = s.as_bytes();
    if text.len() == 0 {
        return (None, s);
    }
    let b: u8 = text[0];
    match Primitive::from_byte(b) {
        Some(p) => {
            proof {
                Primitive::lemma_codes(p, b);
                assert(p.spec_code()[0] == b);
            }
            let (_, t) = split_str(s, 1);
            (Some(p), t)
        },
        None => (None, s),
    }
}

/// The length of the pointer at the start of `s`, if `s` starts with `^`
/// and a complete encoding follows.
pub fn chomp_ptr(s: &str) -> (r: Option<usize>)
    ensures
        match r {
            Some(n) => pointer_len(s.spec_bytes()) == Some(n as int),
            None => pointer_len(s.spec_bytes()) is None,
        },
    decreases s.spec_bytes().len(), 0nat,
{
    let text: &[u8] = s.as_bytes();
    if text.len() > 0 && text[0] == 94 {
        let (_, rest) = split_str(s, 1);
        proof {
            lemma_scan_len(rest.spec_bytes());
        }
        let (h, _) = chomp(rest);
        match h {
            Some(h) => Some(h.as_bytes().len() + 1),
            None => None,
        }
    } else {
        None
    }
}

/// Splits `s` behind its first complete encoding.
///
/// Where `s` starts with an encoding, the result is the shortest such
/// prefix and the rest of `s`. Where it does not (so for the empty text, an
/// unknown code or a struct that is never closed), the result is nothing
/// and all of `s`.
pub fn chomp<'a>(s: &'a str) -> (r: (Option<&'a str>, &'a str))
    ensures
        match scan_len(s.spec_bytes()) {
            Some(n) => r.0 matches Some(h) && h.spec_bytes() == s.spec_bytes().take(n)
                && r.1.spec_bytes() == s.spec_bytes().skip(n),
            None => r.0 is None && r.1 == s,
        },
    decreases s.spec_bytes().len(), 1nat,
{
    let mut head_len: Option<usize> = chomp_ptr(s);
    if head_len.is_none() {
        head_len = chomp_struct(s);
    }
    if head_len.is_none() {
        let (p, _) = chomp_primitive(s);
        if p.is_some() {
            head_len = Some(1);
        }
    }
    match head_len {
        Some(n) => {
            proof {
                lemma_scan_len(s.spec_bytes());
            }
            let (h, t) = split_str(s, n);
            (Some(h), t)
        },
        None => (None, s),
    }
}

} // verus!
