//! The owning signed bignum and its operations.

use vstd::prelude::*;
use vstd::arithmetic::power::pow;
use vstd::arithmetic::power2::pow2;
use crate::math::{
    MAX_BITS, limbs_val, be_val, bits_of, bit_of, with_bit, abs, signed, fits, bytes_of, tdiv,
    trem, gcd, is_prime, dec_text, lemma_bits_zero,
};
use crate::mag;
use std::cmp::Ordering;

verus! {

/// Why an operation produced no value.
#[derive(Debug, Clone, Copy, PartialEq, Eq, Structural)]
pub enum BnError {
    /// A divisor or modulus was zero.
    DivisionByZero,
    /// The value has no inverse for the modulus.
    NoInverse,
    /// An argument lies outside the operation's domain.
    InvalidArgument,
    /// The result would need more than `MAX_BITS` bits.
    TooLarge,
    /// The prime search ran out of candidates.
    PrimeNotFound,
}

/// Shape of a freshly drawn random value of a given bit width.
#[derive(Debug, Clone, Copy, PartialEq, Eq, Structural)]
pub enum RNGProperty {
    /// Any value below `2^bits`.
    MsbMaybeZero,
    /// The top bit is one: exactly `bits` significant bits.
    MsbOne,
    /// The two top bits are one.
    TwoMsbOne,
}

/// An arbitrary-precision signed integer.
pub struct BigNum {
    neg: bool,
    mag: Vec<u32>,
}

impl View for BigNum {
    type V = int;

    closed spec fn view(&self) -> int {
        signed(self.neg, limbs_val(self.mag@))
    }
}

/// The value an operation yields, or its error.
pub open spec fn outcome(r: Result<BigNum, BnError>) -> Result<int, BnError> {
    match r {
        Ok(v) => Ok(v@),
        Err(e) => Err(e),
    }
}

/// `x` when it can be held, else the size error.
pub open spec fn held(x: int) -> Result<int, BnError> {
    if fits(x) {
        Ok(x)
    } else {
        Err(BnError::TooLarge)
    }
}

/// Whether a result, when present, is well formed.
pub open spec fn ok_wf(r: Result<BigNum, BnError>) -> bool {
    r matches Ok(v) ==> v.wf()
}

/// Result of reducing `x` modulo `|n|`: in `[0, |n|)`.
pub open spec fn nnmod_spec(x: int, n: int) -> Result<int, BnError> {
    if n == 0 {
        Err(BnError::DivisionByZero)
    } else {
        Ok(x % (abs(n) as int))
    }
}

/// Result of reducing an intermediate `x` modulo `|n|`.
pub open spec fn reduced(x: int, n: int) -> Result<int, BnError> {
    if n == 0 {
        Err(BnError::DivisionByZero)
    } else if !fits(x) {
        Err(BnError::TooLarge)
    } else {
        Ok(x % (abs(n) as int))
    }
}

pub open spec fn quotient_spec(a: int, b: int) -> Result<int, BnError> {
    if b == 0 {
        Err(BnError::DivisionByZero)
    } else {
        held(tdiv(a, b))
    }
}

pub open spec fn remainder_spec(a: int, b: int) -> Result<int, BnError> {
    if b == 0 {
        Err(BnError::DivisionByZero)
    } else {
        held(trem(a, b))
    }
}

/// `a` multiplied by `2^k`.
pub open spec fn shl_spec(a: int, k: int) -> Result<int, BnError> {
    if k < 0 {
        Err(BnError::InvalidArgument)
    } else {
        held(a * pow2(k as nat))
    }
}

/// `|a|` divided by `2^k`, with the sign of `a`.
pub open spec fn shr_spec(a: int, k: int) -> Result<int, BnError> {
    if k < 0 {
        Err(BnError::InvalidArgument)
    } else {
        held(signed(a < 0, abs(a) / pow2(k as nat)))
    }
}

impl BigNum {
    /// Well formed: zero is never negative, and the value fits.
    pub closed spec fn wf(&self) -> bool {
        (self.neg ==> limbs_val(self.mag@) > 0) && bits_of(limbs_val(self.mag@)) <= MAX_BITS
    }

    /// Packs a sign and magnitude, refusing values that do not fit.
    fn finish(neg: bool, mag: Vec<u32>) -> (r: Result<BigNum, BnError>)
        ensures
            outcome(r) == held(signed(neg, limbs_val(mag@))),
            ok_wf(r),
    {
        let b = mag::bits(&mag);
        proof {
            lemma_bits_zero(limbs_val(mag@));
        }
        if b > MAX_BITS {
            Err(BnError::TooLarge)
        } else {
            Ok(BigNum { neg: neg && b != 0, mag })
        }
    }

    /// A fresh zero.
    pub fn new() -> (r: Result<BigNum, BnError>)
        ensures
            outcome(r) == Ok::<int, BnError>(0),
            ok_wf(r),
    {
        let r = BigNum { neg: false, mag: Vec::new() };
        proof {
            reveal_with_fuel(limbs_val, 1);
            reveal_with_fuel(bits_of, 1);
        }
        Ok(r)
    }

    /// The value of an unsigned word.
    pub fn new_from(n: u64) -> (r: Result<BigNum, BnError>)
        ensures
            outcome(r) == Ok::<int, BnError>(n as int),
            ok_wf(r),
    {
        let m = mag::from_u64(n);
        proof {
            lemma_small_bits(n as nat);
        }
        BigNum::finish(false, m)
    }

    /// The unsigned big-endian value of `n`; empty input gives zero.
    pub fn new_from_slice(n: &[u8]) -> (r: Result<BigNum, BnError>)
        ensures
            outcome(r) == held(be_val(n@) as int),
            ok_wf(r),
    {
        let m = mag::from_bytes_be(n);
        BigNum::finish(false, m)
    }

    /// Whether the value is below zero.
    pub fn is_negative(&self) -> (r: bool)
        ensures
            r == (self@ < 0),
    {
        let b = mag::bits(&self.mag);
        proof {
            lemma_bits_zero(limbs_val(self.mag@));
        }
        self.neg && b != 0
    }

    /// Whether the value is zero.
    pub fn is_zero(&self) -> (r: bool)
        ensures
            r == (self@ == 0),
    {
        let b = mag::bits(&self.mag);
        proof {
            lemma_bits_zero(limbs_val(self.mag@));
        }
        b == 0
    }

    /// Flips the sign in place; zero stays non-negative.
    pub fn negate(&mut self)
        ensures
            final(self)@ == -old(self)@,
            old(self).wf() ==> final(self).wf(),
    {
        let z = self.is_zero();
        let n = !self.neg && !z;
        self.neg = n;
    }

    /// A copy of the value.
    pub fn duplicate(&self) -> (r: BigNum)
        ensures
            r@ == self@,
            self.wf() ==> r.wf(),
    {
        BigNum { neg: self.neg, mag: self.mag.clone() }
    }
}

impl BigNum {
    /// `self * 2^k`; fails when `k` is negative.
    pub fn checked_shl(&self, a: &i32) -> (r: Result<BigNum, BnError>)
        ensures
            outcome(r) == shl_spec(self@, *a as int),
            ok_wf(r),
    {
        if *a < 0 {
            return Err(BnError::InvalidArgument);
        }
        let k = *a as u64;
        let m = mag::shl(&self.mag, k);
        proof {
            let p = pow2(k as nat);
            let x = limbs_val(self.mag@);
            assert(signed(self.neg, x * p) == signed(self.neg, x) * p) by (nonlinear_arith)
                requires
                    signed(self.neg, x * p) == (if self.neg { -((x * p) as int) } else { (x * p) as int }),
                    signed(self.neg, x) == (if self.neg { -(x as int) } else { x as int }),
            ;
        }
        BigNum::finish(self.neg, m)
    }

    /// `|self| / 2^k` with the sign of `self`; fails when `k` is negative.
    pub fn checked_shr(&self, a: &i32) -> (r: Result<BigNum, BnError>)
        requires
            self.wf(),
        ensures
            outcome(r) == shr_spec(self@, *a as int),
            ok_wf(r),
    {
        if *a < 0 {
            return Err(BnError::InvalidArgument);
        }
        let m = mag::shr(&self.mag, *a as u64);
        BigNum::finish(self.neg, m)
    }

    /// `self * 2`.
    pub fn checked_shl1(&self) -> (r: Result<BigNum, BnError>)
        ensures
            outcome(r) == shl_spec(self@, 1),
            ok_wf(r),
    {
        self.checked_shl(&1)
    }

    /// `|self| / 2` with the sign of `self`.
    pub fn checked_shr1(&self) -> (r: Result<BigNum, BnError>)
        requires
            self.wf(),
        ensures
            outcome(r) == shr_spec(self@, 1),
            ok_wf(r),
    {
        self.checked_shr(&1)
    }

    /// `self^|p|`, without a modulus.
    pub fn checked_exp(&self, p: &BigNum) -> (r: Result<BigNum, BnError>)
        requires
            self.wf(),
            p.wf(),
        ensures
            outcome(r) == held(pow(self@, abs(p@))),
            ok_wf(r),
    {
        proof {
            lemma_pow_signed(self.neg, limbs_val(self.mag@), limbs_val(p.mag@));
        }
        // A base of at least two bits gives a power of at least
        // (bits - 1) * |p| + 1 bits: refuse before computing it.
        let ab = mag::bits(&self.mag);
        if ab >= 2 {
            let pb = mag::bits(&p.mag);
            let k = ab - 1;
            proof {
                crate::laws::law_num_bits(limbs_val(self.mag@));
                crate::laws::law_num_bits(limbs_val(p.mag@));
                vstd::arithmetic::power2::lemma2_to64();
            }
            if pb > 32 {
                proof {
                    if pb - 1 > 32 {
                        vstd::arithmetic::power2::lemma_pow2_strictly_increases(32, (pb - 1) as nat);
                    }
                    assert(k * limbs_val(p.mag@) >= limbs_val(p.mag@)) by (nonlinear_arith)
                        requires k >= 1;
                    lemma_pow_too_large(limbs_val(self.mag@), limbs_val(p.mag@), k as nat);
                }
                return Err(BnError::TooLarge);
            }
            proof {
                if limbs_val(p.mag@) >= pow2(32) {
                    lemma_bits_bound(limbs_val(p.mag@), 32);
                    if pb < 32 {
                        vstd::arithmetic::power2::lemma_pow2_strictly_increases(pb as nat, 32);
                    }
                }
            }
            let e = mag::small_value(&p.mag);
            proof {
                assert(k * e <= 0x2000_0000 * 0xffff_ffff) by (nonlinear_arith)
                    requires k <= 0x2000_0000, e <= 0xffff_ffff;
            }
            if k * e >= MAX_BITS {
                proof {
                    lemma_pow_too_large(limbs_val(self.mag@), limbs_val(p.mag@), k as nat);
                }
                return Err(BnError::TooLarge);
            }
        }
        let m = mag::pow_mag(&self.mag, &p.mag);
        let odd = mag::bit(&p.mag, 0);
        proof {
            vstd::arithmetic::power2::lemma2_to64();
            assert(pow2(0) == 1);
            assert(limbs_val(p.mag@) / 1 == limbs_val(p.mag@));
            lemma_pow_signed(self.neg, limbs_val(self.mag@), limbs_val(p.mag@));
        }
        BigNum::finish(self.neg && odd, m)
    }

    /// `self^|p| mod |n|`, in `[0, |n|)`.
    pub fn checked_mod_exp(&self, p: &BigNum, n: &BigNum) -> (r: Result<BigNum, BnError>)
        requires
            p.wf(),
            n.wf(),
        ensures
            outcome(r) == (if n@ == 0 {
                Err(BnError::DivisionByZero)
            } else {
                Ok(pow(self@, abs(p@)) % (abs(n@) as int))
            }),
            ok_wf(r),
    {
        let b = nnmod_parts(self.neg, &self.mag, n)?;
        let out = mag::modpow(&b.mag, &p.mag, &n.mag);
        proof {
            let mm = abs(n@) as int;
            vstd::arithmetic::power::lemma_pow_mod_noop(self@, abs(p@), mm);
            lemma_fits_below(limbs_val(out@), limbs_val(n.mag@));
        }
        BigNum::finish(false, out)
    }

    /// The inverse of `self` modulo `|n|`, in `[0, |n|)`; fails when
    /// `gcd(self mod |n|, |n|) != 1`.
    pub fn checked_mod_inv(&self, n: &BigNum) -> (r: Result<BigNum, BnError>)
        requires
            n.wf(),
        ensures
            r is Ok == (n@ != 0 && gcd((self@ % (abs(n@) as int)) as nat, abs(n@)) == 1),
            r matches Err(e) ==> e == (if n@ == 0 { BnError::DivisionByZero } else { BnError::NoInverse }),
            r matches Ok(v) ==> v.wf() && 0 <= v@ < abs(n@)
                && (self@ * v@) % (abs(n@) as int) == 1int % (abs(n@) as int),
    {
        let b = nnmod_parts(self.neg, &self.mag, n)?;
        match mag::modinv(&b.mag, &n.mag) {
            Some(x) => {
                proof {
                    let mm = abs(n@) as int;
                    vstd::arithmetic::div_mod::lemma_mul_mod_noop_left(self@, limbs_val(x@) as int, mm);
                    lemma_fits_below(limbs_val(x@), limbs_val(n.mag@));
                }
                BigNum::finish(false, x)
            },
            None => Err(BnError::NoInverse),
        }
    }

    /// The non-negative greatest common divisor of `self` and `a`.
    pub fn checked_gcd(&self, a: &BigNum) -> (r: Result<BigNum, BnError>)
        requires
            self.wf(),
            a.wf(),
        ensures
            outcome(r) == Ok::<int, BnError>(gcd(abs(self@), abs(a@)) as int),
            ok_wf(r),
    {
        let g = mag::gcd_mag(&self.mag, &a.mag);
        proof {
            lemma_gcd_le(limbs_val(self.mag@), limbs_val(a.mag@));
            if limbs_val(self.mag@) <= limbs_val(a.mag@) {
                lemma_fits_below(limbs_val(g@), limbs_val(a.mag@));
            } else {
                lemma_fits_below(limbs_val(g@), limbs_val(self.mag@));
            }
        }
        BigNum::finish(false, g)
    }
}

/// `a^e` with `a >= 2^k` has more than `k * e` bits.
proof fn lemma_pow_too_large(a: nat, e: nat, k: nat)
    requires
        a >= pow2(k),
        k * e >= MAX_BITS,
    ensures
        bits_of(pow(a as int, e) as nat) > MAX_BITS,
        pow(a as int, e) >= 0,
{
    lemma_pow_base_le(pow2(k), a, e);
    vstd::arithmetic::power2::lemma_pow2(k);
    vstd::arithmetic::power::lemma_pow_multiplies(2, k, e);
    vstd::arithmetic::power2::lemma_pow2(k * e);
    let n = pow(a as int, e) as nat;
    assert(n >= pow2(k * e));
    crate::laws::law_num_bits(n);
    vstd::arithmetic::power2::lemma_pow2_pos(k * e);
    if bits_of(n) <= k * e {
        if bits_of(n) < k * e {
            vstd::arithmetic::power2::lemma_pow2_strictly_increases(bits_of(n), k * e);
        }
    }
}

/// Powers grow with the base.
proof fn lemma_pow_base_le(x: nat, y: nat, e: nat)
    requires
        x <= y,
    ensures
        0 <= pow(x as int, e) <= pow(y as int, e),
    decreases e,
{
    reveal(pow);
    if e > 0 {
        lemma_pow_base_le(x, y, (e - 1) as nat);
        let px = pow(x as int, (e - 1) as nat);
        let py = pow(y as int, (e - 1) as nat);
        assert(0 <= x * px <= y * py) by (nonlinear_arith)
            requires 0 <= x <= y, 0 <= px <= py;
    }
}

/// Euclid's gcd is at most the larger argument.
pub proof fn lemma_gcd_le(a: nat, b: nat)
    ensures
        gcd(a, b) <= if a <= b { b } else { a },
    decreases b,
{
    if b > 0 {
        lemma_gcd_le(b, a % b);
    }
}

/// Powers of a signed value: the sign survives an odd exponent only.
proof fn lemma_pow_signed(neg: bool, a: nat, e: nat)
    ensures
        pow(signed(neg, a), e) == signed(neg && e % 2 == 1, pow(a as int, e) as nat),
        pow(a as int, e) >= 0,
    decreases e,
{
    reveal(pow);
    if e > 0 {
        lemma_pow_signed(neg, a, (e - 1) as nat);
        let s = signed(neg, a);
        let pa = pow(a as int, (e - 1) as nat);
        assert(a * pa >= 0) by (nonlinear_arith) requires pa >= 0;
        assert(pow(s, e) == s * pow(s, (e - 1) as nat));
        assert(pow(a as int, e) == a * pa);
        if neg {
            assert(s == -(a as int));
            if (e - 1) % 2 == 1 {
                assert(pow(s, (e - 1) as nat) == -pa);
                assert(s * (-pa) == a * pa) by (nonlinear_arith) requires s == -(a as int);
            } else {
                assert(pow(s, (e - 1) as nat) == pa);
                assert(s * pa == -(a * pa)) by (nonlinear_arith) requires s == -(a as int);
            }
        }
    }
}

impl BigNum {
    /// Sets bit `n` of the magnitude; fails when `n` is negative or the
    /// result would not fit, leaving the value as it was.
    pub fn set_bit(&mut self, n: i32) -> (r: Result<(), BnError>)
        requires
            old(self).wf(),
        ensures
            final(self).wf(),
            n < 0 ==> r == Err::<(), BnError>(BnError::InvalidArgument),
            n >= 0 ==> (r is Ok == (bits_of(with_bit(abs(old(self)@), n as nat, true)) <= MAX_BITS)),
            r is Err ==> final(self)@ == old(self)@,
            r matches Err(e) ==> e == (if n < 0 { BnError::InvalidArgument } else { BnError::TooLarge }),
            r is Ok ==> final(self)@ == signed(old(self)@ < 0, with_bit(abs(old(self)@), n as nat, true)),
            r is Ok ==> forall|j: nat| #[trigger] bit_of(abs(final(self)@), j)
                == (if j == n { true } else { bit_of(abs(old(self)@), j) }),
    {
        if n < 0 {
            return Err(BnError::InvalidArgument);
        }
        let m = mag::set_bit(&self.mag, n as u64, true);
        let b = mag::bits(&m);
        if b > MAX_BITS {
            return Err(BnError::TooLarge);
        }
        self.mag = m;
        Ok(())
    }

    /// Clears bit `n` of the magnitude; fails only when `n` is negative.
    pub fn clear_bit(&mut self, n: i32) -> (r: Result<(), BnError>)
        requires
            old(self).wf(),
        ensures
            final(self).wf(),
            r is Ok == (n >= 0),
            r matches Err(e) ==> e == BnError::InvalidArgument && final(self)@ == old(self)@,
            r is Ok ==> final(self)@ == signed(old(self)@ < 0, with_bit(abs(old(self)@), n as nat, false)),
            r is Ok ==> forall|j: nat| #[trigger] bit_of(abs(final(self)@), j)
                == (if j == n { false } else { bit_of(abs(old(self)@), j) }),
    {
        if n < 0 {
            return Err(BnError::InvalidArgument);
        }
        let m = mag::set_bit(&self.mag, n as u64, false);
        let b = mag::bits(&m);
        proof {
            lemma_bits_zero(limbs_val(m@));
            lemma_with_bit_clear_le(limbs_val(self.mag@), n as nat);
            lemma_fits_below(limbs_val(m@), limbs_val(self.mag@));
        }
        self.neg = self.neg && b != 0;
        self.mag = m;
        Ok(())
    }

    /// Whether bit `n` of the magnitude is one; false for negative `n`.
    pub fn is_bit_set(&self, n: i32) -> (r: bool)
        ensures
            r == (n >= 0 && bit_of(abs(self@), n as nat)),
    {
        if n < 0 {
            false
        } else {
            mag::bit(&self.mag, n as u64)
        }
    }

    /// Keeps the low `n` bits of the magnitude; fails when `n` is negative
    /// or the value has fewer than `n` significant bits.
    pub fn mask_bits(&mut self, n: i32) -> (r: Result<(), BnError>)
        requires
            old(self).wf(),
        ensures
            final(self).wf(),
            r is Ok == (n >= 0 && bits_of(abs(old(self)@)) >= n),
            r matches Err(e) ==> e == BnError::InvalidArgument && final(self)@ == old(self)@,
            r is Ok ==> final(self)@ == signed(old(self)@ < 0, abs(old(self)@) % pow2(n as nat)),
    {
        if n < 0 {
            return Err(BnError::InvalidArgument);
        }
        let b = mag::bits(&self.mag);
        if b < n as u64 {
            return Err(BnError::InvalidArgument);
        }
        let one = mag::from_u64(1);
        let p = mag::shl(&one, n as u64);
        proof {
            vstd::arithmetic::power2::lemma_pow2_pos(n as nat);
        }
        let (_, low) = mag::div_rem(&self.mag, &p);
        let z = mag::bits(&low);
        proof {
            lemma_bits_zero(limbs_val(low@));
            lemma_mod_le(limbs_val(self.mag@), pow2(n as nat));
            lemma_fits_below(limbs_val(low@), limbs_val(self.mag@));
        }
        self.neg = self.neg && z != 0;
        self.mag = low;
        Ok(())
    }

    /// Number of significant bits of the magnitude; zero has none.
    pub fn num_bits(&self) -> (r: i32)
        requires
            self.wf(),
        ensures
            r as int == bits_of(abs(self@)),
    {
        let b = mag::bits(&self.mag);
        b as i32
    }

    /// Number of bytes of the magnitude's minimal big-endian form.
    pub fn num_bytes(&self) -> (r: i32)
        requires
            self.wf(),
        ensures
            r as int == bytes_of(abs(self@)),
    {
        (self.num_bits() + 7) / 8
    }

    /// Orders the magnitudes, ignoring signs.
    pub fn abs_cmp(&self, oth: BigNum) -> (r: Ordering)
        ensures
            (r == Ordering::Less) == (abs(self@) < abs(oth@)),
            (r == Ordering::Equal) == (abs(self@) == abs(oth@)),
            (r == Ordering::Greater) == (abs(self@) > abs(oth@)),
    {
        mag::cmp(&self.mag, &oth.mag)
    }

    /// Orders the signed values.
    pub fn cmp(&self, oth: &BigNum) -> (r: Ordering)
        ensures
            (r == Ordering::Less) == (self@ < oth@),
            (r == Ordering::Equal) == (self@ == oth@),
            (r == Ordering::Greater) == (self@ > oth@),
    {
        let a = self.is_negative();
        let b = oth.is_negative();
        if a && !b {
            Ordering::Less
        } else if !a && b {
            Ordering::Greater
        } else if a {
            match mag::cmp(&self.mag, &oth.mag) {
                Ordering::Less => Ordering::Greater,
                Ordering::Greater => Ordering::Less,
                Ordering::Equal => Ordering::Equal,
            }
        } else {
            mag::cmp(&self.mag, &oth.mag)
        }
    }

    /// Minimal big-endian bytes of the magnitude; empty for zero.
    pub fn to_vec(&self) -> (r: Vec<u8>)
        requires
            self.wf(),
        ensures
            be_val(r@) == abs(self@),
            r@.len() == bytes_of(abs(self@)),
    {
        if self.is_zero() {
            proof {
                reveal_with_fuel(be_val, 1);
                lemma_bits_zero(0);
            }
            Vec::new()
        } else {
            mag::to_bytes_be(&self.mag)
        }
    }

    /// Canonical signed decimal text.
    pub fn to_dec_str(&self) -> (r: String)
        requires
            self.wf(),
        ensures
            r@ == dec_text(self@),
    {
        mag::to_decimal(self.neg, &self.mag)
    }

    /// A fresh zero.
    pub fn zero() -> (r: BigNum)
        ensures
            r@ == 0,
            r.wf(),
    {
        BigNum::new_from(0).unwrap()
    }

    /// A fresh one.
    pub fn one() -> (r: BigNum)
        ensures
            r@ == 1,
            r.wf(),
    {
        BigNum::new_from(1).unwrap()
    }
}

impl PartialEq for BigNum {
    fn eq(&self, oth: &BigNum) -> (r: bool) {
        let c = self.cmp(oth);
        match c {
            Ordering::Equal => true,
            _ => false,
        }
    }
}

impl vstd::std_specs::cmp::PartialEqSpecImpl for BigNum {
    open spec fn obeys_eq_spec() -> bool {
        true
    }

    open spec fn eq_spec(&self, oth: &BigNum) -> bool {
        self@ == oth@
    }
}

impl Eq for BigNum {}

impl PartialOrd for BigNum {
    fn partial_cmp(&self, oth: &BigNum) -> (r: Option<Ordering>) {
        Some(self.cmp(oth))
    }
}

impl vstd::std_specs::cmp::PartialOrdSpecImpl for BigNum {
    open spec fn obeys_partial_cmp_spec() -> bool {
        true
    }

    open spec fn partial_cmp_spec(&self, oth: &BigNum) -> Option<Ordering> {
        if self@ < oth@ {
            Some(Ordering::Less)
        } else if self@ == oth@ {
            Some(Ordering::Equal)
        } else {
            Some(Ordering::Greater)
        }
    }
}

impl Clone for BigNum {
    fn clone(&self) -> (r: BigNum)
        ensures
            r@ == self@,
            self.wf() ==> r.wf(),
    {
        self.duplicate()
    }
}

impl std::ops::Neg for BigNum {
    type Output = BigNum;

    fn neg(self) -> (r: BigNum)
        ensures
            r@ == -self@,
            self.wf() ==> r.wf(),
    {
        let z = self.is_zero();
        BigNum { neg: !self.neg && !z, mag: self.mag }
    }
}

impl vstd::std_specs::ops::NegSpecImpl for BigNum {
    open spec fn obeys_neg_spec() -> bool {
        true
    }

    open spec fn neg_req(self) -> bool {
        true
    }

    closed spec fn neg_spec(self) -> BigNum {
        BigNum { neg: !self.neg && limbs_val(self.mag@) != 0, mag: self.mag }
    }
}

/// Upper bound on the candidates tried by the prime search.
pub const MAX_PRIME_TRIES: u64 = 0x1_0000_0000;

/// Whether `bits`, `prop` and `odd` describe a shape some value has.
pub open spec fn random_args_ok(bits: int, prop: RNGProperty, odd: bool) -> bool {
    bits >= 0 && !(bits == 0 && (prop != RNGProperty::MsbMaybeZero || odd)) && !(bits == 1
        && prop == RNGProperty::TwoMsbOne)
}

/// Whether `v` has the shape asked of a random value.
pub open spec fn has_shape(v: nat, bits: nat, prop: RNGProperty, odd: bool) -> bool {
    &&& forall|j: nat| j >= bits ==> !#[trigger] bit_of(v, j)
    &&& prop != RNGProperty::MsbMaybeZero ==> bit_of(v, (bits - 1) as nat)
    &&& prop == RNGProperty::TwoMsbOne ==> bit_of(v, (bits - 2) as nat)
    &&& odd ==> bit_of(v, 0)
}

/// The error, if any, that the arguments of a random draw give.
pub open spec fn random_error(bits: int, prop: RNGProperty, odd: bool) -> Option<BnError> {
    if !random_args_ok(bits, prop, odd) {
        Some(BnError::InvalidArgument)
    } else if bits > MAX_BITS {
        Some(BnError::TooLarge)
    } else {
        None
    }
}

/// `x` with the bits that `prop` and `odd` ask for forced to one.
pub open spec fn forced(x: nat, bits: nat, prop: RNGProperty, odd: bool) -> nat {
    let a = if prop == RNGProperty::MsbMaybeZero { x } else { with_bit(x, (bits - 1) as nat, true) };
    let b = if prop == RNGProperty::TwoMsbOne { with_bit(a, (bits - 2) as nat, true) } else { a };
    if odd {
        with_bit(b, 0, true)
    } else {
        b
    }
}

/// The residue a prime must have modulo `add`: `rem`, or 1 without it.
pub open spec fn prime_target(rem: Option<int>) -> int {
    match rem {
        Some(r) => r,
        None => 1,
    }
}

/// The candidate that the prime search builds from a draw `d`: the draw
/// with its top and low bits set, then moved onto the residue class asked for.
pub open spec fn candidate_of(d: nat, bits: nat, add: Option<int>, rem: Option<int>) -> int {
    let x = forced(d, bits, RNGProperty::MsbOne, true) as int;
    match add {
        None => x,
        Some(m) => x - x % m + prime_target(rem),
    }
}

/// Whether `p` meets the congruence that `add` and `rem` ask for.
pub open spec fn prime_congruent(p: int, add: Option<int>, rem: Option<int>) -> bool {
    match add {
        None => true,
        Some(d) => p % d == (match rem {
            Some(r) => r,
            None => 1,
        }) % d,
    }
}

/// The error, if any, that the arguments of a prime search give.
pub open spec fn prime_error(bits: int, safe: bool, add: Option<int>, rem: Option<int>) -> Option<BnError> {
    if bits < 2 || (safe && bits < 3) || (add matches Some(d) && d <= 0) || (add matches Some(d)
        && rem matches Some(r) && (r < 0 || r >= d)) {
        Some(BnError::InvalidArgument)
    } else if bits > MAX_BITS {
        Some(BnError::TooLarge)
    } else {
        None
    }
}

/// The value of an optional argument.
pub open spec fn opt_view(x: Option<&BigNum>) -> Option<int> {
    match x {
        Some(v) => Some(v@),
        None => None,
    }
}

/// Whether an optional argument, when present, is well formed.
pub open spec fn opt_wf(x: Option<&BigNum>) -> bool {
    x matches Some(v) ==> v.wf()
}

/// Forces the requested top bits and low bit on a draw below `2^bits`.
fn shape(r: Vec<u32>, bits: u64, prop: RNGProperty, odd: bool) -> (out: Vec<u32>)
    requires
        random_args_ok(bits as int, prop, odd),
    ensures
        limbs_val(out@) == forced(limbs_val(r@), bits as nat, prop, odd),
        (forall|j: nat| j >= bits ==> !#[trigger] bit_of(limbs_val(r@), j))
            ==> has_shape(limbs_val(out@), bits as nat, prop, odd),
{
    let mut v = r;
    match prop {
        RNGProperty::MsbMaybeZero => {},
        RNGProperty::MsbOne => {
            v = mag::set_bit(&v, bits - 1, true);
        },
        RNGProperty::TwoMsbOne => {
            let w = mag::set_bit(&v, bits - 1, true);
            v = mag::set_bit(&w, bits - 2, true);
        },
    }
    if odd {
        let w = mag::set_bit(&v, 0, true);
        v = w;
    }
    v
}

/// A draw of the given shape, from either generator.
fn random_shaped(bits: i32, prop: RNGProperty, odd: bool, pseudo: bool) -> (r: Result<BigNum, BnError>)
    ensures
        ok_wf(r),
        r matches Err(e) ==> random_error(bits as int, prop, odd) == Some(e),
        r matches Ok(v) ==> random_error(bits as int, prop, odd) is None && v@ >= 0
            && has_shape(v@ as nat, bits as nat, prop, odd),
        random_error(bits as int, prop, odd) is None ==> r is Ok,
{
    if bits < 0 || (bits == 0 && (!matches!(prop, RNGProperty::MsbMaybeZero) || odd))
        || (bits == 1 && matches!(prop, RNGProperty::TwoMsbOne)) {
        return Err(BnError::InvalidArgument);
    }
    if bits as u64 > MAX_BITS {
        return Err(BnError::TooLarge);
    }
    let d = if pseudo {
        mag::pseudo_random_bits(bits as u64)
    } else {
        mag::random_bits(bits as u64)
    };
    let v = shape(d, bits as u64, prop, odd);
    proof {
        lemma_clear_above_bits(limbs_val(v@), bits as nat);
    }
    Ok(BigNum { neg: false, mag: v })
}

impl BigNum {
    /// A cryptographic-quality random value of the given shape.
    pub fn checked_new_random(bits: i32, prop: RNGProperty, odd: bool) -> (r: Result<BigNum, BnError>)
        ensures
            ok_wf(r),
            r matches Err(e) ==> random_error(bits as int, prop, odd) == Some(e),
            r matches Ok(v) ==> v@ >= 0 && has_shape(v@ as nat, bits as nat, prop, odd),
            r is Ok == (random_error(bits as int, prop, odd) is None),
    {
        random_shaped(bits, prop, odd, false)
    }

    /// A random value of the given shape from a fast generator, for tests.
    pub fn checked_new_pseudo_random(bits: i32, prop: RNGProperty, odd: bool) -> (r: Result<BigNum, BnError>)
        ensures
            ok_wf(r),
            r matches Err(e) ==> random_error(bits as int, prop, odd) == Some(e),
            r matches Ok(v) ==> v@ >= 0 && has_shape(v@ as nat, bits as nat, prop, odd),
            r is Ok == (random_error(bits as int, prop, odd) is None),
    {
        random_shaped(bits, prop, odd, true)
    }

    /// A cryptographic-quality random value in `[0, self)`.
    pub fn checked_rand_in_range(&self) -> (r: Result<BigNum, BnError>)
        requires
            self.wf(),
        ensures
            ok_wf(r),
            r is Ok == (self@ > 0),
            r matches Err(e) ==> e == BnError::InvalidArgument,
            r matches Ok(v) ==> 0 <= v@ < self@,
    {
        self.range_draw(false)
    }

    /// A random value in `[0, self)` from a fast generator, for tests.
    pub fn checked_pseudo_rand_in_range(&self) -> (r: Result<BigNum, BnError>)
        requires
            self.wf(),
        ensures
            ok_wf(r),
            r is Ok == (self@ > 0),
            r matches Err(e) ==> e == BnError::InvalidArgument,
            r matches Ok(v) ==> 0 <= v@ < self@,
    {
        self.range_draw(true)
    }

    fn range_draw(&self, pseudo: bool) -> (r: Result<BigNum, BnError>)
        requires
            self.wf(),
        ensures
            ok_wf(r),
            r is Ok == (self@ > 0),
            r matches Err(e) ==> e == BnError::InvalidArgument,
            r matches Ok(v) ==> 0 <= v@ < self@,
    {
        if self.is_negative() || self.is_zero() {
            return Err(BnError::InvalidArgument);
        }
        let v = if pseudo {
            mag::pseudo_random_below(&self.mag)
        } else {
            mag::random_below(&self.mag)
        };
        proof {
            lemma_fits_below(limbs_val(v@), limbs_val(self.mag@));
        }
        Ok(BigNum { neg: false, mag: v })
    }

    /// Probabilistic primality test. A prime always passes; a value below 2
    /// never does. The number of Miller-Rabin rounds is chosen from the size
    /// of the value by the underlying test, whatever `checks` says.
    pub fn is_prime(&self, checks: i32) -> (r: Result<bool, BnError>)
        ensures
            r matches Ok(b) && (b ==> self@ >= 2) && (is_prime(self@) ==> b),
    {
        Ok(self.prime_test())
    }

    /// As `is_prime`; the underlying test always starts with trial division.
    pub fn is_prime_fast(&self, checks: i32, do_trial_division: bool) -> (r: Result<bool, BnError>)
        ensures
            r matches Ok(b) && (b ==> self@ >= 2) && (is_prime(self@) ==> b),
    {
        Ok(self.prime_test())
    }

    fn prime_test(&self) -> (b: bool)
        ensures
            b ==> self@ >= 2,
            is_prime(self@) ==> b,
    {
        if self.is_negative() {
            false
        } else {
            mag::probably_prime(&self.mag)
        }
    }

    /// The candidate the prime search tests for a draw: the draw with its
    /// top bit and low bit set and, with `add`, moved down onto the residue
    /// `rem` (or 1) modulo `add`.
    pub fn prime_candidate(draw: &Vec<u32>, bits: u64, add: Option<&BigNum>, rem: Option<&BigNum>) -> (c: Vec<u32>)
        requires
            2 <= bits,
            opt_wf(add),
            opt_wf(rem),
            add matches Some(d) ==> d@ > 0,
            add is Some && rem is Some ==> 0 <= rem.unwrap()@ < add.unwrap()@,
        ensures
            limbs_val(c@) == candidate_of(limbs_val(draw@), bits as nat, opt_view(add), opt_view(rem)),
            prime_congruent(limbs_val(c@) as int, opt_view(add), opt_view(rem)),
    {
        let c0 = shape(draw.clone(), bits, RNGProperty::MsbOne, true);
        match add {
            None => c0,
            Some(d) => {
                let t = match rem {
                    Some(m) => m.mag.clone(),
                    None => mag::from_u64(1),
                };
                let (_, m) = mag::div_rem(&c0, &d.mag);
                proof {
                    lemma_mod_le(limbs_val(c0@), limbs_val(d.mag@));
                }
                let base = mag::sub(&c0, &m);
                let c1 = mag::add(&base, &t);
                proof {
                    let cv = limbs_val(c0@) as int;
                    let dv = limbs_val(d.mag@) as int;
                    let tv = limbs_val(t@) as int;
                    vstd::arithmetic::div_mod::lemma_fundamental_div_mod(cv, dv);
                    assert(limbs_val(c1@) == dv * (cv / dv) + tv);
                    vstd::arithmetic::div_mod::lemma_mod_multiples_vanish(cv / dv, tv, dv);
                }
                c1
            },
        }
    }

    /// Whether a candidate is taken: it has exactly `bits` bits, it passed
    /// the primality test, and for a safe prime its half passed too.
    pub fn accept_candidate(c: &Vec<u32>, bits: u64, safe: bool, p_passed: bool, q_passed: bool) -> (ok: bool)
        ensures
            ok == (bits_of(limbs_val(c@)) == bits && p_passed && (safe ==> q_passed)),
    {
        let cb = mag::bits(c);
        cb == bits && p_passed && (!safe || q_passed)
    }

    /// Searches for a probable prime of exactly `bits` bits. With `add`,
    /// the prime is congruent to `rem` (or to 1 without `rem`) modulo `add`;
    /// `rem` alone is ignored. With `safe`, `(p - 1) / 2` passes the
    /// primality test too.
    pub fn checked_generate_prime(bits: i32, safe: bool, add: Option<&BigNum>, rem: Option<&BigNum>) -> (r: Result<BigNum, BnError>)
        requires
            opt_wf(add),
            opt_wf(rem),
        ensures
            ok_wf(r),
            prime_error(bits as int, safe, opt_view(add), opt_view(rem)) matches Some(e) ==> r == Err::<BigNum, BnError>(e),
            r matches Err(e) ==> e == BnError::PrimeNotFound || prime_error(bits as int, safe, opt_view(add), opt_view(rem)) == Some(e),
            r matches Ok(p) ==> p@ >= 2 && bits_of(p@ as nat) == bits
                && prime_congruent(p@, opt_view(add), opt_view(rem))
                && (safe ==> p@ / 2 >= 2),
            r matches Ok(p) ==> exists|d: nat| d < pow2(bits as nat)
                && p@ == #[trigger] candidate_of(d, bits as nat, opt_view(add), opt_view(rem)),
    {
        if bits < 2 || (safe && bits < 3) {
            return Err(BnError::InvalidArgument);
        }
        match add {
            Some(d) => {
                if d.is_negative() || d.is_zero() {
                    return Err(BnError::InvalidArgument);
                }
                match rem {
                    Some(m) => {
                        if m.is_negative() {
                            return Err(BnError::InvalidArgument);
                        }
                        match m.cmp(d) {
                            Ordering::Less => {},
                            _ => {
                                return Err(BnError::InvalidArgument);
                            },
                        }
                    },
                    None => {},
                }
            },
            None => {},
        }
        if bits as u64 > MAX_BITS {
            return Err(BnError::TooLarge);
        }
        let nbits = bits as u64;
        let mut tries: u64 = 0;
        while tries < MAX_PRIME_TRIES
            invariant
                nbits == bits as u64,
                2 <= bits <= MAX_BITS,
                safe ==> bits >= 3,
                opt_wf(add),
                opt_wf(rem),
                prime_error(bits as int, safe, opt_view(add), opt_view(rem)) is None,
            decreases MAX_PRIME_TRIES - tries,
        {
            tries = tries + 1;
            let draw = mag::random_bits(nbits);
            let c = BigNum::prime_candidate(&draw, nbits, add, rem);
            let cb = mag::bits(&c);
            let q_passed = if safe && cb == nbits {
                let q = mag::shr(&c, 1);
                mag::probably_prime(&q)
            } else {
                false
            };
            let p_passed = if cb == nbits && (!safe || q_passed) {
                mag::probably_prime(&c)
            } else {
                false
            };
            if BigNum::accept_candidate(&c, nbits, safe, p_passed, q_passed) {
                proof {
                    vstd::arithmetic::power2::lemma2_to64();
                    lemma_clear_above_lt(limbs_val(draw@), nbits as nat);
                    let d = limbs_val(draw@);
                    assert(d < pow2(bits as nat));
                }
                return Ok(BigNum { neg: false, mag: c });
            }
        }
        Err(BnError::PrimeNotFound)
    }
}

/// Bit `j` of `v / 2` is bit `j + 1` of `v`.
proof fn lemma_bit_half(v: nat, j: nat)
    ensures
        bit_of(v / 2, j) == bit_of(v, j + 1),
{
    vstd::arithmetic::power2::lemma_pow2_unfold(j + 1);
    vstd::arithmetic::power2::lemma_pow2_pos(j);
    vstd::arithmetic::div_mod::lemma_div_denominator(v as int, 2, pow2(j) as int);
}

/// A value with no bit at or above `k` is below `2^k`.
pub proof fn lemma_clear_above_lt(v: nat, k: nat)
    requires
        forall|j: nat| j >= k ==> !#[trigger] bit_of(v, j),
    ensures
        v < pow2(k),
    decreases v,
{
    vstd::arithmetic::power2::lemma_pow2_pos(k);
    if v > 0 {
        let kk: nat = if k == 0 { 0 } else { (k - 1) as nat };
        assert forall|j: nat| j >= kk implies !#[trigger] bit_of(v / 2, j) by {
            lemma_bit_half(v, j);
        }
        lemma_clear_above_lt(v / 2, kk);
        vstd::arithmetic::power2::lemma2_to64();
        if k == 0 {
            assert(v / 2 == 0);
            assert(v == 1);
            assert(bit_of(v, 0));
        } else {
            vstd::arithmetic::power2::lemma_pow2_unfold(k);
        }
    }
}

/// A value with no bit at or above `k` has at most `k` bits.
pub proof fn lemma_clear_above_bits(v: nat, k: nat)
    requires
        forall|j: nat| j >= k ==> !#[trigger] bit_of(v, j),
    ensures
        bits_of(v) <= k,
{
    lemma_clear_above_lt(v, k);
    lemma_bits_bound(v, k);
}

/// Sum of two signed magnitudes.
fn add_parts(an: bool, am: &Vec<u32>, bn: bool, bm: &Vec<u32>) -> (r: Result<BigNum, BnError>)
    ensures
        outcome(r) == held(signed(an, limbs_val(am@)) + signed(bn, limbs_val(bm@))),
        ok_wf(r),
{
    if an == bn {
        let m = mag::add(am, bm);
        BigNum::finish(an, m)
    } else {
        match mag::cmp(am, bm) {
            Ordering::Less => {
                let m = mag::sub(bm, am);
                BigNum::finish(bn, m)
            },
            _ => {
                let m = mag::sub(am, bm);
                BigNum::finish(an, m)
            },
        }
    }
}

impl BigNum {
    /// `self + a`.
    pub fn checked_add(&self, a: &BigNum) -> (r: Result<BigNum, BnError>)
        ensures
            outcome(r) == held(self@ + a@),
            ok_wf(r),
    {
        add_parts(self.neg, &self.mag, a.neg, &a.mag)
    }

    /// `self - a`.
    pub fn checked_sub(&self, a: &BigNum) -> (r: Result<BigNum, BnError>)
        ensures
            outcome(r) == held(self@ - a@),
            ok_wf(r),
    {
        add_parts(self.neg, &self.mag, !a.neg, &a.mag)
    }

    /// `self * a`.
    pub fn checked_mul(&self, a: &BigNum) -> (r: Result<BigNum, BnError>)
        ensures
            outcome(r) == held(self@ * a@),
            ok_wf(r),
    {
        let m = mag::mul(&self.mag, &a.mag);
        proof {
            lemma_signed_mul(self.neg, limbs_val(self.mag@), a.neg, limbs_val(a.mag@));
        }
        BigNum::finish(self.neg != a.neg, m)
    }

    /// `self * self`.
    pub fn checked_sqr(&self) -> (r: Result<BigNum, BnError>)
        ensures
            outcome(r) == held(self@ * self@),
            ok_wf(r),
    {
        self.checked_mul(self)
    }

    /// Quotient rounded toward zero; fails on a zero divisor.
    pub fn checked_div(&self, a: &BigNum) -> (r: Result<BigNum, BnError>)
        ensures
            outcome(r) == quotient_spec(self@, a@),
            ok_wf(r),
    {
        if a.is_zero() {
            return Err(BnError::DivisionByZero);
        }
        let (q, _) = mag::div_rem(&self.mag, &a.mag);
        proof {
            lemma_signed_abs(self.neg, limbs_val(self.mag@));
            lemma_signed_abs(a.neg, limbs_val(a.mag@));
        }
        let an = self.is_negative();
        let bn = a.is_negative();
        BigNum::finish(an != bn, q)
    }

    /// Remainder paired with `checked_div`: it takes the sign of `self`.
    pub fn checked_mod(&self, a: &BigNum) -> (r: Result<BigNum, BnError>)
        ensures
            outcome(r) == remainder_spec(self@, a@),
            ok_wf(r),
    {
        if a.is_zero() {
            return Err(BnError::DivisionByZero);
        }
        let (_, m) = mag::div_rem(&self.mag, &a.mag);
        proof {
            lemma_signed_abs(self.neg, limbs_val(self.mag@));
            lemma_signed_abs(a.neg, limbs_val(a.mag@));
        }
        let an = self.is_negative();
        BigNum::finish(an, m)
    }

    /// `self` reduced to the canonical value in `[0, |n|)`.
    pub fn checked_nnmod(&self, n: &BigNum) -> (r: Result<BigNum, BnError>)
        requires
            n.wf(),
        ensures
            outcome(r) == nnmod_spec(self@, n@),
            ok_wf(r),
    {
        nnmod_parts(self.neg, &self.mag, n)
    }

    /// `(self + a) mod |n|`, in `[0, |n|)`.
    pub fn checked_mod_add(&self, a: &BigNum, n: &BigNum) -> (r: Result<BigNum, BnError>)
        requires
            n.wf(),
        ensures
            outcome(r) == reduced(self@ + a@, n@),
            ok_wf(r),
    {
        if n.is_zero() {
            return Err(BnError::DivisionByZero);
        }
        let s = self.checked_add(a)?;
        s.checked_nnmod(n)
    }

    /// `(self - a) mod |n|`, in `[0, |n|)`.
    pub fn checked_mod_sub(&self, a: &BigNum, n: &BigNum) -> (r: Result<BigNum, BnError>)
        requires
            n.wf(),
        ensures
            outcome(r) == reduced(self@ - a@, n@),
            ok_wf(r),
    {
        if n.is_zero() {
            return Err(BnError::DivisionByZero);
        }
        let s = self.checked_sub(a)?;
        s.checked_nnmod(n)
    }

    /// `(self * a) mod |n|`, in `[0, |n|)`.
    pub fn checked_mod_mul(&self, a: &BigNum, n: &BigNum) -> (r: Result<BigNum, BnError>)
        requires
            n.wf(),
        ensures
            outcome(r) == reduced(self@ * a@, n@),
            ok_wf(r),
    {
        if n.is_zero() {
            return Err(BnError::DivisionByZero);
        }
        let s = self.checked_mul(a)?;
        s.checked_nnmod(n)
    }

    /// `self^2 mod |n|`, in `[0, |n|)`.
    pub fn checked_mod_sqr(&self, n: &BigNum) -> (r: Result<BigNum, BnError>)
        requires
            n.wf(),
        ensures
            outcome(r) == reduced(self@ * self@, n@),
            ok_wf(r),
    {
        self.checked_mod_mul(self, n)
    }
}

/// A signed magnitude reduced to `[0, |n|)`.
fn nnmod_parts(neg: bool, m: &Vec<u32>, n: &BigNum) -> (r: Result<BigNum, BnError>)
    requires
        n.wf(),
    ensures
        outcome(r) == nnmod_spec(signed(neg, limbs_val(m@)), n@),
        ok_wf(r),
{
    if n.is_zero() {
        return Err(BnError::DivisionByZero);
    }
    proof {
        lemma_signed_abs(n.neg, limbs_val(n.mag@));
    }
    let (_, rm) = mag::div_rem(m, &n.mag);
    let ghost a = limbs_val(m@) as int;
    let ghost d = limbs_val(n.mag@) as int;
    let z = mag::bits(&rm);
    proof {
        lemma_bits_zero(limbs_val(rm@));
        vstd::arithmetic::div_mod::lemma_fundamental_div_mod(a, d);
    }
    if neg && z != 0 {
        let out = mag::sub(&n.mag, &rm);
        proof {
            let q = a / d;
            let r0 = a % d;
            assert(-a == (-q - 1) * d + (d - r0)) by (nonlinear_arith)
                requires a == d * q + r0;
            vstd::arithmetic::div_mod::lemma_fundamental_div_mod_converse(-a, d, -q - 1, d - r0);
            lemma_fits_below(limbs_val(out@), limbs_val(n.mag@));
        }
        BigNum::finish(false, out)
    } else {
        proof {
            if neg {
                assert(-a == (-(a / d)) * d) by (nonlinear_arith)
                    requires a == d * (a / d) + a % d, a % d == 0;
                vstd::arithmetic::div_mod::lemma_fundamental_div_mod_converse(-a, d, -(a / d), 0);
            }
            lemma_fits_below(limbs_val(rm@), limbs_val(n.mag@));
        }
        BigNum::finish(false, rm)
    }
}

proof fn lemma_signed_mul(an: bool, a: nat, bn: bool, b: nat)
    ensures
        signed(an != bn, a * b) == signed(an, a) * signed(bn, b),
{
    assert(signed(an != bn, a * b) == signed(an, a) * signed(bn, b)) by (nonlinear_arith)
        requires
            signed(an != bn, a * b) == (if an != bn { -((a * b) as int) } else { (a * b) as int }),
            signed(an, a) == (if an { -(a as int) } else { a as int }),
            signed(bn, b) == (if bn { -(b as int) } else { b as int }),
    ;
}

/// The sign flag of a held value agrees with its sign unless it is zero.
proof fn lemma_signed_abs(neg: bool, m: nat)
    ensures
        abs(signed(neg, m)) == m,
        m > 0 ==> ((signed(neg, m) < 0) == neg),
{
}

/// A value no larger than a fitting one fits.
pub proof fn lemma_fits_below(x: nat, y: nat)
    requires
        x <= y,
        bits_of(y) <= MAX_BITS,
    ensures
        bits_of(x) <= MAX_BITS,
{
    lemma_bits_monotone(x, y);
}

/// `bits_of` does not decrease.
pub proof fn lemma_bits_monotone(x: nat, y: nat)
    requires
        x <= y,
    ensures
        bits_of(x) <= bits_of(y),
    decreases y,
{
    if x > 0 {
        lemma_bits_monotone(x / 2, y / 2);
    }
}

/// Clearing a bit never makes a value larger.
pub proof fn lemma_with_bit_clear_le(n: nat, i: nat)
    ensures
        with_bit(n, i, false) <= n,
{
    let p = pow2(i);
    vstd::arithmetic::power2::lemma_pow2_pos(i);
    if bit_of(n, i) {
        vstd::arithmetic::div_mod::lemma_fundamental_div_mod(n as int, p as int);
        assert(n >= p) by (nonlinear_arith)
            requires n == p * (n / p) + n % p, n / p >= 1, n % p >= 0, p > 0;
    }
}

/// A remainder is no larger than the dividend.
pub proof fn lemma_mod_le(n: nat, p: nat)
    requires
        p > 0,
    ensures
        n % p <= n,
{
    vstd::arithmetic::div_mod::lemma_fundamental_div_mod(n as int, p as int);
    assert(n % p <= n) by (nonlinear_arith)
        requires n == p * (n / p) + n % p, n / p >= 0, p > 0;
}

/// Below 2^64 a value has at most 64 bits.
proof fn lemma_small_bits(n: nat)
    requires
        n < 0x1_0000_0000_0000_0000,
    ensures
        bits_of(n) <= 64,
{
    vstd::arithmetic::power2::lemma2_to64();
    lemma_bits_bound(n, 64);
}

/// A value below `2^k` has at most `k` bits.
pub proof fn lemma_bits_bound(n: nat, k: nat)
    requires
        n < pow2(k),
    ensures
        bits_of(n) <= k,
    decreases k,
{
    if n > 0 {
        if k == 0 {
            vstd::arithmetic::power::lemma_pow0(2);
        } else {
            vstd::arithmetic::power2::lemma_pow2_unfold(k);
            assert(n / 2 < pow2((k - 1) as nat));
            lemma_bits_bound(n / 2, (k - 1) as nat);
        }
    }
}

} // verus!
