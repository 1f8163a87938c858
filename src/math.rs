//! Mathematical meaning of magnitudes, bytes, bits and decimal text.

use vstd::prelude::*;

verus! {

/// The largest number of significant bits a value may carry.
pub const MAX_BITS: u64 = 0x2000_0000;

/// Value of little-endian base 2^32 limbs.
pub open spec fn limbs_val(s: Seq<u32>) -> nat
    decreases s.len(),
{
    if s.len() == 0 {
        0
    } else {
        s[0] as nat + 0x1_0000_0000 * limbs_val(s.skip(1))
    }
}

/// Value of big-endian bytes.
pub open spec fn be_val(s: Seq<u8>) -> nat
    decreases s.len(),
{
    if s.len() == 0 {
        0
    } else {
        be_val(s.drop_last()) * 256 + s.last() as nat
    }
}

/// Number of significant bits: zero has none.
pub open spec fn bits_of(n: nat) -> nat
    decreases n,
{
    if n == 0 {
        0
    } else {
        1 + bits_of(n / 2)
    }
}

/// Whether bit `i` (0 is least significant) of `n` is one.
pub open spec fn bit_of(n: nat, i: nat) -> bool {
    (n / vstd::arithmetic::power2::pow2(i)) % 2 == 1
}

/// `n` with bit `i` forced to `b`.
pub open spec fn with_bit(n: nat, i: nat, b: bool) -> nat {
    let p = vstd::arithmetic::power2::pow2(i);
    if bit_of(n, i) == b {
        n
    } else if b {
        n + p
    } else {
        (n - p) as nat
    }
}

pub open spec fn abs(x: int) -> nat {
    if x < 0 {
        (-x) as nat
    } else {
        x as nat
    }
}

/// The integer with the given sign flag and magnitude.
pub open spec fn signed(neg: bool, m: nat) -> int {
    if neg {
        -(m as int)
    } else {
        m as int
    }
}

/// Whether a value is small enough to be held.
pub open spec fn fits(x: int) -> bool {
    bits_of(abs(x)) <= MAX_BITS
}

/// Number of bytes of the minimal big-endian form.
pub open spec fn bytes_of(n: nat) -> nat {
    (bits_of(n) + 7) / 8
}

/// Quotient rounded toward zero.
pub open spec fn tdiv(a: int, b: int) -> int {
    signed((a < 0) != (b < 0), abs(a) / abs(b))
}

/// Remainder paired with `tdiv`: it takes the sign of `a`.
pub open spec fn trem(a: int, b: int) -> int {
    signed(a < 0, abs(a) % abs(b))
}

/// Greatest common divisor by Euclid's recurrence; `gcd(0, 0) == 0`.
pub open spec fn gcd(a: nat, b: nat) -> nat
    decreases b,
{
    if b == 0 {
        a
    } else {
        gcd(b, a % b)
    }
}

pub open spec fn is_prime(n: int) -> bool {
    n >= 2 && forall|d: int| 2 <= d < n ==> #[trigger] (n % d) != 0
}

pub open spec fn digit_char(d: nat) -> char {
    if d == 0 { '0' } else if d == 1 { '1' } else if d == 2 { '2' } else if d == 3 { '3' }
    else if d == 4 { '4' } else if d == 5 { '5' } else if d == 6 { '6' } else if d == 7 { '7' }
    else if d == 8 { '8' } else { '9' }
}

pub open spec fn char_digit(c: char) -> nat {
    if c == '1' { 1 } else if c == '2' { 2 } else if c == '3' { 3 } else if c == '4' { 4 }
    else if c == '5' { 5 } else if c == '6' { 6 } else if c == '7' { 7 } else if c == '8' { 8 }
    else if c == '9' { 9 } else { 0 }
}

/// Decimal digits of `n`, most significant first, without leading zeros.
pub open spec fn dec_digits(n: nat) -> Seq<char>
    decreases n,
{
    if n < 10 {
        seq![digit_char(n)]
    } else {
        dec_digits(n / 10).push(digit_char(n % 10))
    }
}

/// Canonical signed decimal text of `x`.
pub open spec fn dec_text(x: int) -> Seq<char> {
    if x < 0 {
        seq!['-'] + dec_digits(abs(x))
    } else {
        dec_digits(abs(x))
    }
}

/// Reads a string of decimal digits.
pub open spec fn parse_digits(s: Seq<char>) -> nat
    decreases s.len(),
{
    if s.len() == 0 {
        0
    } else {
        parse_digits(s.drop_last()) * 10 + char_digit(s.last())
    }
}

/// Reads decimal text with an optional leading minus sign.
pub open spec fn parse_dec(s: Seq<char>) -> int {
    if s.len() > 0 && s[0] == '-' {
        -(parse_digits(s.skip(1)) as int)
    } else {
        parse_digits(s) as int
    }
}

pub proof fn lemma_bits_zero(n: nat)
    ensures
        (bits_of(n) == 0) == (n == 0),
{
    reveal_with_fuel(bits_of, 2);
}

} // verus!
