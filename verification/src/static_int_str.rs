//! Decimal rendering of unsigned integers into fixed-size byte arrays.
//!
//! The digits of a number are written in two passes: [`end_str_len`] gives
//! the number of digits, and [`get_str_array`] fills an array that is at
//! least that long. Both are specified against the same function,
//! [`digits`], so the two passes cannot drift apart.
use vstd::prelude::*;

verus! {

/// The decimal digits of `n` as ASCII bytes, most significant first, with
/// no leading zero except for the number zero itself.
pub open spec fn digits(n: nat) -> Seq<u8>
    decreases n,
{
    if n < 10 {
        seq![(48 + n) as u8]
    } else {
        digits(n / 10).push((48 + n % 10) as u8)
    }
}

/// Ten to the power `k`.
pub open spec fn pow10(k: nat) -> nat
    decreases k,
{
    if k == 0 {
        1
    } else {
        10 * pow10((k - 1) as nat)
    }
}

/// A number below `10^k` has at most `k` digits.
pub proof fn lemma_digits_len_bound(n: nat, k: nat)
    requires
        k >= 1,
        n < pow10(k),
    ensures
        1 <= digits(n).len() <= k,
    decreases k,
{
    if n >= 10 {
        reveal_with_fuel(pow10, 2);
        if k == 1 {
            assert(pow10(1) == 10);
        } else {
            assert(pow10(k) == 10 * pow10((k - 1) as nat));
            lemma_digits_len_bound(n / 10, (k - 1) as nat);
        }
    }
}

/// Every 128-bit number has between one and 39 digits.
pub proof fn lemma_digits_len_u128(n: u128)
    ensures
        1 <= digits(n as nat).len() <= 39,
{
    assert(pow10(39) == 1000000000000000000000000000000000000000) by {
        reveal_with_fuel(pow10, 40);
    }
    lemma_digits_len_bound(n as nat, 39);
}

/// Every byte of `digits(n)` is an ASCII digit.
pub proof fn lemma_digits_are_digits(n: nat)
    ensures
        forall|i: int| 0 <= i < digits(n).len() ==> 48 <= #[trigger] digits(n)[i] <= 57,
    decreases n,
{
    if n >= 10 {
        lemma_digits_are_digits(n / 10);
        assert forall|i: int| 0 <= i < digits(n).len() implies 48 <= #[trigger] digits(n)[i]
            <= 57 by {
            if i < digits(n / 10).len() {
                assert(digits(n)[i] == digits(n / 10)[i]);
            }
        }
    }
}

/// The number of decimal digits of `n`.
pub fn end_str_len(n: u128) -> (len: usize)
    ensures
        len == digits(n as nat).len(),
        1 <= len <= 39,
{
    proof {
        lemma_digits_len_u128(n);
    }
    if n == 0 {
        return 1;
    }
    let mut n: u128 = n;
    let mut i: usize = 0;
    let ghost start = n;
    while n > 0
        invariant
            digits(start as nat).len() <= 39,
            n > 0 ==> i + digits(n as nat).len() == digits(start as nat).len(),
            n == 0 ==> i == digits(start as nat).len(),
        decreases n,
    {
        n = n / 10;
        i += 1;
    }
    i
}

/// Writes the decimal digits of `n` at the start of an array of `RES`
/// bytes; the bytes behind the digits are zero.
///
/// The array must have room for the digits: `RES` is at least
/// `end_str_len(n)`.
pub fn get_str_array<const RES: usize>(n: u128) -> (res: [u8; RES])
    requires
        digits(n as nat).len() <= RES,
    ensures
        res@.subrange(0, digits(n as nat).len() as int) == digits(n as nat),
        forall|i: int| digits(n as nat).len() <= i < RES ==> res[i] == 0,
{
    let len: usize = end_str_len(n);
    let mut res: [u8; RES] = [0u8; RES];
    let ghost start = n;
    let mut n: u128 = n;
    let mut i: usize = len;
    if n < 10 {
        res[0] = 48u8 + (n as u8);
        assert(res@.subrange(0, 1) =~= digits(start as nat));
        return res;
    }
    while n > 0
        invariant
            len == digits(start as nat).len(),
            len <= RES,
            i <= len,
            n > 0 ==> i == digits(n as nat).len() && digits(start as nat) == digits(n as nat)
                + res@.subrange(i as int, len as int),
            n == 0 ==> i == 0 && digits(start as nat) == res@.subrange(0, len as int),
            forall|j: int| len <= j < RES ==> res[j] == 0,
        decreases n,
    {
        let d: u8 = (n % 10) as u8;
        let ghost before = res@;
        let ghost m = n;
        i -= 1;
        res[i] = 48u8 + d;
        n = n / 10;
        proof {
            let tail = before.subrange(i + 1, len as int);
            assert(res@.subrange(i as int, len as int) =~= seq![(48 + m % 10) as u8] + tail);
            if m < 10 {
                assert(digits(m as nat) =~= seq![(48 + m % 10) as u8]);
            } else {
                assert(digits(m as nat) =~= digits(n as nat) + seq![(48 + m % 10) as u8]);
            }
            assert(digits(start as nat) =~= digits(m as nat) + tail);
        }
    }
    res
}

} // verus!
