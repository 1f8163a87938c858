//! Magnitude arithmetic on little-endian base 2^32 limbs.
//!
//! Apart from the two small conversions at the top, each function here hands
//! its limbs to `num_bigint::BigUint` (or to a crate built on it) and hands
//! the result back as limbs; the contract says what the called function
//! computes.

use vstd::prelude::*;
use vstd::arithmetic::power::pow;
use crate::math::{limbs_val, be_val, bits_of, bit_of, with_bit, bytes_of, dec_digits, gcd, is_prime};
use num_bigint::{BigUint, BigInt, RandBigInt, Sign};
use std::cmp::Ordering;

verus! {

/// The limbs of a word: low half first.
pub(crate) fn from_u64(n: u64) -> (r: Vec<u32>)
    ensures
        limbs_val(r@) == n,
{
    proof {
        assert(n & 0xffff_ffff <= 0xffff_ffff) by (bit_vector);
        assert(n >> 32 <= 0xffff_ffff) by (bit_vector);
        assert(n == (n & 0xffff_ffff) + (n >> 32) * 0x1_0000_0000) by (bit_vector);
    }
    let lo = (n & 0xffff_ffff) as u32;
    let hi = (n >> 32) as u32;
    let mut v: Vec<u32> = Vec::new();
    v.push(lo);
    v.push(hi);
    proof {
        assert(v@.skip(1).skip(1) =~= Seq::<u32>::empty());
        assert(v@.skip(1)[0] == hi);
        reveal_with_fuel(limbs_val, 3);
    }
    v
}

/// The value of limbs that is below `2^32`.
pub(crate) fn small_value(a: &Vec<u32>) -> (r: u64)
    requires
        limbs_val(a@) < 0x1_0000_0000,
    ensures
        r == limbs_val(a@),
{
    if a.len() == 0 {
        proof {
            reveal_with_fuel(limbs_val, 1);
        }
        0
    } else {
        proof {
            reveal_with_fuel(limbs_val, 1);
            let rest = limbs_val(a@.skip(1));
            assert(rest == 0) by (nonlinear_arith)
                requires a@[0] as nat + 0x1_0000_0000 * rest < 0x1_0000_0000, rest >= 0;
        }
        a[0] as u64
    }
}

/// Relies on `BigUint::from_bytes_be`: the bytes read as an unsigned big-endian number.
#[verifier::external_body]
pub(crate) fn from_bytes_be(b: &[u8]) -> (r: Vec<u32>)
    ensures
        limbs_val(r@) == be_val(b@),
{
    BigUint::from_bytes_be(b).to_u32_digits()
}

/// Relies on `BigUint::to_bytes_be`: minimal big-endian bytes, `[0]` for zero.
#[verifier::external_body]
pub(crate) fn to_bytes_be(a: &Vec<u32>) -> (r: Vec<u8>)
    ensures
        be_val(r@) == limbs_val(a@),
        limbs_val(a@) > 0 ==> r@.len() == bytes_of(limbs_val(a@)),
{
    BigUint::new(a.clone()).to_bytes_be()
}

/// Relies on `Ord for BigUint`: numerical comparison.
#[verifier::external_body]
pub(crate) fn cmp(a: &Vec<u32>, b: &Vec<u32>) -> (r: Ordering)
    ensures
        (r == Ordering::Less) == (limbs_val(a@) < limbs_val(b@)),
        (r == Ordering::Equal) == (limbs_val(a@) == limbs_val(b@)),
        (r == Ordering::Greater) == (limbs_val(a@) > limbs_val(b@)),
{
    BigUint::new(a.clone()).cmp(&BigUint::new(b.clone()))
}

/// Relies on `Add for BigUint`.
#[verifier::external_body]
pub(crate) fn add(a: &Vec<u32>, b: &Vec<u32>) -> (r: Vec<u32>)
    ensures
        limbs_val(r@) == limbs_val(a@) + limbs_val(b@),
{
    (BigUint::new(a.clone()) + BigUint::new(b.clone())).to_u32_digits()
}

/// Relies on `Sub for BigUint`, which panics when the result would be negative.
#[verifier::external_body]
pub(crate) fn sub(a: &Vec<u32>, b: &Vec<u32>) -> (r: Vec<u32>)
    requires
        limbs_val(a@) >= limbs_val(b@),
    ensures
        limbs_val(r@) == limbs_val(a@) - limbs_val(b@),
{
    (BigUint::new(a.clone()) - BigUint::new(b.clone())).to_u32_digits()
}

/// Relies on `Mul for BigUint`.
#[verifier::external_body]
pub(crate) fn mul(a: &Vec<u32>, b: &Vec<u32>) -> (r: Vec<u32>)
    ensures
        limbs_val(r@) == limbs_val(a@) * limbs_val(b@),
{
    (BigUint::new(a.clone()) * BigUint::new(b.clone())).to_u32_digits()
}

/// Relies on `Integer::div_rem for BigUint`, which panics on a zero divisor.
#[verifier::external_body]
pub(crate) fn div_rem(a: &Vec<u32>, b: &Vec<u32>) -> (r: (Vec<u32>, Vec<u32>))
    requires
        limbs_val(b@) > 0,
    ensures
        limbs_val(r.0@) == limbs_val(a@) / limbs_val(b@),
        limbs_val(r.1@) == limbs_val(a@) % limbs_val(b@),
{
    let (q, m) = num_integer::Integer::div_rem(&BigUint::new(a.clone()), &BigUint::new(b.clone()));
    (q.to_u32_digits(), m.to_u32_digits())
}

/// Relies on `Integer::gcd for BigUint`: the greatest common divisor, with
/// `gcd(0, 0) == 0`.
#[verifier::external_body]
pub(crate) fn gcd_mag(a: &Vec<u32>, b: &Vec<u32>) -> (r: Vec<u32>)
    ensures
        limbs_val(r@) == gcd(limbs_val(a@), limbs_val(b@)),
{
    num_integer::Integer::gcd(&BigUint::new(a.clone()), &BigUint::new(b.clone())).to_u32_digits()
}

/// Relies on `Shl<u64> for BigUint`.
#[verifier::external_body]
pub(crate) fn shl(a: &Vec<u32>, k: u64) -> (r: Vec<u32>)
    ensures
        limbs_val(r@) == limbs_val(a@) * vstd::arithmetic::power2::pow2(k as nat),
{
    (BigUint::new(a.clone()) << k).to_u32_digits()
}

/// Relies on `Shr<u64> for BigUint`.
#[verifier::external_body]
pub(crate) fn shr(a: &Vec<u32>, k: u64) -> (r: Vec<u32>)
    ensures
        limbs_val(r@) == limbs_val(a@) / vstd::arithmetic::power2::pow2(k as nat),
{
    (BigUint::new(a.clone()) >> k).to_u32_digits()
}

/// Relies on `BigUint::bits`: the fewest bits that express the value.
#[verifier::external_body]
pub(crate) fn bits(a: &Vec<u32>) -> (r: u64)
    ensures
        r == bits_of(limbs_val(a@)),
{
    BigUint::new(a.clone()).bits()
}

/// Relies on `BigUint::bit`.
#[verifier::external_body]
pub(crate) fn bit(a: &Vec<u32>, i: u64) -> (r: bool)
    ensures
        r == bit_of(limbs_val(a@), i as nat),
{
    BigUint::new(a.clone()).bit(i)
}

/// Relies on `BigUint::set_bit`: bit `i` becomes `value`, every other bit stays.
#[verifier::external_body]
pub(crate) fn set_bit(a: &Vec<u32>, i: u64, value: bool) -> (r: Vec<u32>)
    ensures
        limbs_val(r@) == with_bit(limbs_val(a@), i as nat, value),
        forall|j: nat| #[trigger] bit_of(limbs_val(r@), j) == (if j == i { value } else { bit_of(limbs_val(a@), j) }),
{
    let mut x = BigUint::new(a.clone());
    x.set_bit(i, value);
    x.to_u32_digits()
}

/// Relies on `Pow<&BigUint> for &BigUint`.
#[verifier::external_body]
pub(crate) fn pow_mag(a: &Vec<u32>, e: &Vec<u32>) -> (r: Vec<u32>)
    ensures
        limbs_val(r@) == pow(limbs_val(a@) as int, limbs_val(e@)),
{
    num_traits::Pow::pow(&BigUint::new(a.clone()), &BigUint::new(e.clone())).to_u32_digits()
}

/// Relies on `BigUint::modpow`, which panics on a zero modulus.
#[verifier::external_body]
pub(crate) fn modpow(a: &Vec<u32>, e: &Vec<u32>, m: &Vec<u32>) -> (r: Vec<u32>)
    requires
        limbs_val(m@) > 0,
    ensures
        limbs_val(r@) == pow(limbs_val(a@) as int, limbs_val(e@)) % (limbs_val(m@) as int),
{
    BigUint::new(a.clone()).modpow(&BigUint::new(e.clone()), &BigUint::new(m.clone())).to_u32_digits()
}

/// Relies on `BigUint::modinv`: the inverse in `[0, m)`, present exactly when
/// `gcd(a, m) == 1`; it panics on a zero modulus.
#[verifier::external_body]
pub(crate) fn modinv(a: &Vec<u32>, m: &Vec<u32>) -> (r: Option<Vec<u32>>)
    requires
        limbs_val(m@) > 0,
    ensures
        r.is_some() == (gcd(limbs_val(a@), limbs_val(m@)) == 1),
        r matches Some(x) ==> limbs_val(x@) < limbs_val(m@)
            && (limbs_val(a@) * limbs_val(x@)) % limbs_val(m@) == 1nat % limbs_val(m@),
{
    BigUint::new(a.clone()).modinv(&BigUint::new(m.clone())).map(|x| x.to_u32_digits())
}

/// Relies on `BigInt::from_biguint` and `BigInt::to_str_radix(10)`: a minus
/// sign for a negative value, then the decimal digits without leading zeros.
#[verifier::external_body]
pub(crate) fn to_decimal(neg: bool, a: &Vec<u32>) -> (r: String)
    ensures
        r@ == (if neg && limbs_val(a@) > 0 {
            seq!['-'] + dec_digits(limbs_val(a@))
        } else {
            dec_digits(limbs_val(a@))
        }),
{
    let sign = if neg { Sign::Minus } else { Sign::Plus };
    BigInt::from_biguint(sign, BigUint::new(a.clone())).to_str_radix(10)
}

/// Relies on `glass_pumpkin::prime::check`: trial division, a Fermat test and
/// Miller-Rabin rounds, none of which rejects a prime; zero and one are rejected.
#[verifier::external_body]
pub(crate) fn probably_prime(a: &Vec<u32>) -> (r: bool)
    ensures
        is_prime(limbs_val(a@) as int) ==> r,
        r ==> limbs_val(a@) >= 2,
{
    glass_pumpkin::prime::check(&BigUint::new(a.clone()))
}

/// Relies on `RandBigInt::gen_biguint` over the operating system's generator:
/// a value below `2^bits`.
#[verifier::external_body]
pub(crate) fn random_bits(bits: u64) -> (r: Vec<u32>)
    ensures
        forall|j: nat| j >= bits ==> !#[trigger] bit_of(limbs_val(r@), j),
{
    rand::rngs::OsRng.gen_biguint(bits).to_u32_digits()
}

/// Relies on `RandBigInt::gen_biguint` over the thread-local generator.
#[verifier::external_body]
pub(crate) fn pseudo_random_bits(bits: u64) -> (r: Vec<u32>)
    ensures
        forall|j: nat| j >= bits ==> !#[trigger] bit_of(limbs_val(r@), j),
{
    rand::thread_rng().gen_biguint(bits).to_u32_digits()
}

/// Relies on `RandBigInt::gen_biguint_below` over the operating system's
/// generator, which panics on a zero bound.
#[verifier::external_body]
pub(crate) fn random_below(n: &Vec<u32>) -> (r: Vec<u32>)
    requires
        limbs_val(n@) > 0,
    ensures
        limbs_val(r@) < limbs_val(n@),
{
    rand::rngs::OsRng.gen_biguint_below(&BigUint::new(n.clone())).to_u32_digits()
}

/// Relies on `RandBigInt::gen_biguint_below` over the thread-local generator.
#[verifier::external_body]
pub(crate) fn pseudo_random_below(n: &Vec<u32>) -> (r: Vec<u32>)
    requires
        limbs_val(n@) > 0,
    ensures
        limbs_val(r@) < limbs_val(n@),
{
    rand::thread_rng().gen_biguint_below(&BigUint::new(n.clone())).to_u32_digits()
}

} // verus!
