//! Algebraic laws of the operations, stated over the specifications that the
//! operations' own contracts use.

use vstd::prelude::*;
use vstd::arithmetic::power2::pow2;
use crate::math::{
    abs, be_val, bit_of, bits_of, dec_digits, dec_text, digit_char, char_digit, fits, gcd,
    parse_dec, parse_digits, signed, tdiv, trem,
};
use crate::bn::{held, nnmod_spec, quotient_spec, reduced, remainder_spec, shl_spec, shr_spec, BnError};

verus! {

/// Reading back the bytes that `to_vec` writes gives the magnitude.
pub proof fn law_bytes_round_trip(x: int, b: Seq<u8>)
    requires
        fits(x),
        be_val(b) == abs(x),
    ensures
        held(be_val(b) as int) == Ok::<int, BnError>(abs(x) as int),
{
}

proof fn lemma_digit(d: nat)
    requires
        d < 10,
    ensures
        char_digit(digit_char(d)) == d,
        digit_char(d) != '-',
{
}

/// The digits of a number read back as that number; the first one is no sign.
pub proof fn lemma_parse_dec_digits(n: nat)
    ensures
        parse_digits(dec_digits(n)) == n,
        dec_digits(n).len() > 0,
        dec_digits(n)[0] != '-',
    decreases n,
{
    if n < 10 {
        lemma_digit(n);
        let s = dec_digits(n);
        assert(s.drop_last() =~= Seq::<char>::empty());
        reveal_with_fuel(parse_digits, 2);
    } else {
        lemma_parse_dec_digits(n / 10);
        lemma_digit(n % 10);
        let s = dec_digits(n);
        assert(s.drop_last() =~= dec_digits(n / 10));
        assert(s.last() == digit_char(n % 10));
    }
}

/// Reading the decimal text of a value gives the value back.
pub proof fn law_decimal_round_trip(x: int)
    ensures
        parse_dec(dec_text(x)) == x,
{
    lemma_parse_dec_digits(abs(x));
    if x < 0 {
        let s = dec_text(x);
        assert(s.skip(1) =~= dec_digits(abs(x)));
    }
}

/// Addition and multiplication do not depend on the order of arguments.
pub proof fn law_commutative(a: int, b: int)
    ensures
        held(a + b) == held(b + a),
        held(a * b) == held(b * a),
{
    assert(a * b == b * a) by (nonlinear_arith);
}

/// Grouping does not change a sum or a product whose parts fit.
pub proof fn law_associative(a: int, b: int, c: int, ab: int, bc: int)
    ensures
        held(a + b) == Ok::<int, BnError>(ab) && held(b + c) == Ok::<int, BnError>(bc)
            ==> held(ab + c) == held(a + bc),
        held(a * b) == Ok::<int, BnError>(ab) && held(b * c) == Ok::<int, BnError>(bc)
            ==> held(ab * c) == held(a * bc),
{
    assert((a * b) * c == a * (b * c)) by (nonlinear_arith);
}

/// Multiplication distributes over addition when the parts fit.
pub proof fn law_distributive(a: int, b: int, c: int, s: int, x: int, y: int)
    requires
        held(b + c) == Ok::<int, BnError>(s),
        held(a * b) == Ok::<int, BnError>(x),
        held(a * c) == Ok::<int, BnError>(y),
    ensures
        held(a * s) == held(x + y),
{
    assert(a * (b + c) == a * b + a * c) by (nonlinear_arith);
}

/// Subtracting what was added gives the first operand back.
pub proof fn law_sub_inverse(a: int, b: int, s: int)
    requires
        fits(a),
        held(a + b) == Ok::<int, BnError>(s),
    ensures
        held(s - b) == Ok::<int, BnError>(a),
{
}

/// Truncated quotient times divisor plus remainder is the dividend.
pub proof fn law_division_identity(a: int, b: int, q: int, r: int, m: int)
    requires
        b != 0,
        fits(a),
        quotient_spec(a, b) == Ok::<int, BnError>(q),
        remainder_spec(a, b) == Ok::<int, BnError>(r),
        held(q * b) == Ok::<int, BnError>(m),
    ensures
        held(m + r) == Ok::<int, BnError>(a),
{
    let x = abs(a) as int;
    let y = abs(b) as int;
    vstd::arithmetic::div_mod::lemma_fundamental_div_mod(x, y);
    let qq = x / y;
    let rr = x % y;
    assert(q == tdiv(a, b) && r == trem(a, b));
    if a < 0 {
        if b < 0 {
            assert(q * b + r == a) by (nonlinear_arith)
                requires q == qq, b == -y, r == -rr, x == y * qq + rr, a == -x;
        } else {
            assert(q * b + r == a) by (nonlinear_arith)
                requires q == -qq, b == y, r == -rr, x == y * qq + rr, a == -x;
        }
    } else {
        if b < 0 {
            assert(q * b + r == a) by (nonlinear_arith)
                requires q == -qq, b == -y, r == rr, x == y * qq + rr, a == x;
        } else {
            assert(q * b + r == a) by (nonlinear_arith)
                requires q == qq, b == y, r == rr, x == y * qq + rr, a == x;
        }
    }
}

/// A canonical residue lies in `[0, |n|)`.
pub proof fn law_nnmod_canonical(a: int, n: int, r: int)
    requires
        n != 0,
        nnmod_spec(a, n) == Ok::<int, BnError>(r),
    ensures
        0 <= r < abs(n),
{
}

/// The inverse that `checked_mod_inv` yields multiplies `a` to 1 modulo `n`.
pub proof fn law_mod_inverse(a: int, n: int, v: int)
    requires
        abs(n) > 1,
        fits(a * v),
        0 <= v < abs(n),
        (a * v) % (abs(n) as int) == 1int % (abs(n) as int),
    ensures
        reduced(a * v, n) == Ok::<int, BnError>(1),
{
    vstd::arithmetic::div_mod::lemma_small_mod(1, abs(n));
}

/// `d` divides `x` and `y`, hence `x * p + y * q` for any integers.
proof fn lemma_divides_lin(x: int, y: int, d: int, p: int, q: int)
    requires
        d > 0,
        x % d == 0,
        y % d == 0,
    ensures
        (x * p + y * q) % d == 0,
{
    vstd::arithmetic::div_mod::lemma_fundamental_div_mod(x, d);
    vstd::arithmetic::div_mod::lemma_fundamental_div_mod(y, d);
    let k = (x / d) * p + (y / d) * q;
    assert(x * p + y * q == k * d) by (nonlinear_arith)
        requires x == d * (x / d), y == d * (y / d), k == (x / d) * p + (y / d) * q;
    vstd::arithmetic::div_mod::lemma_mod_multiples_basic(k, d);
}

/// Euclid's gcd divides both arguments, and is zero only for `(0, 0)`.
pub proof fn lemma_gcd_divides(a: nat, b: nat)
    ensures
        gcd(a, b) == 0 ==> a == 0 && b == 0,
        gcd(a, b) > 0 ==> a % gcd(a, b) == 0 && b % gcd(a, b) == 0,
    decreases b,
{
    if b == 0 {
        if a > 0 {
            vstd::arithmetic::div_mod::lemma_mod_self_0(a as int);
            vstd::arithmetic::div_mod::lemma_small_mod(0, a);
        }
    } else {
        lemma_gcd_divides(b, a % b);
        let g = gcd(a, b) as int;
        if g > 0 {
            vstd::arithmetic::div_mod::lemma_fundamental_div_mod(a as int, b as int);
            lemma_divides_lin(b as int, (a % b) as int, g, (a / b) as int, 1);
            assert(a == b * (a / b) + (a % b) * 1);
        }
    }
}

/// Every common divisor of `a` and `b` divides their gcd.
pub proof fn lemma_common_divides_gcd(a: nat, b: nat, d: int)
    requires
        d > 0,
        (a as int) % d == 0,
        (b as int) % d == 0,
    ensures
        (gcd(a, b) as int) % d == 0,
    decreases b,
{
    if b > 0 {
        let ai = a as int;
        let bi = b as int;
        let qi = ai / bi;
        vstd::arithmetic::div_mod::lemma_fundamental_div_mod(ai, bi);
        lemma_divides_lin(ai, bi, d, 1, -qi);
        assert(ai % bi == ai * 1 + bi * (-qi)) by (nonlinear_arith)
            requires ai == bi * qi + ai % bi;
        lemma_common_divides_gcd(b, a % b, d);
    }
}

/// Two positive numbers that divide each other are equal.
proof fn lemma_divide_each_other(x: int, y: int)
    requires
        x > 0,
        y > 0,
        x % y == 0,
        y % x == 0,
    ensures
        x == y,
{
    vstd::arithmetic::div_mod::lemma_fundamental_div_mod(x, y);
    vstd::arithmetic::div_mod::lemma_fundamental_div_mod(y, x);
    assert(x >= y) by (nonlinear_arith)
        requires x == y * (x / y), x > 0, y > 0;
    assert(y >= x) by (nonlinear_arith)
        requires y == x * (y / x), x > 0, y > 0;
}

/// The gcd with `m` is the same for `r` and `m - r`.
pub proof fn lemma_gcd_reflect(r: nat, m: nat)
    requires
        0 < r < m,
    ensures
        gcd((m - r) as nat, m) == gcd(r, m),
{
    let g1 = gcd(r, m);
    let g2 = gcd((m - r) as nat, m);
    lemma_gcd_divides(r, m);
    lemma_gcd_divides((m - r) as nat, m);
    lemma_divides_lin(m as int, r as int, g1 as int, 1, -1);
    assert((m - r) as nat as int == m * 1 + r * (-1));
    lemma_common_divides_gcd((m - r) as nat, m, g1 as int);
    lemma_divides_lin(m as int, (m - r) as int, g2 as int, 1, -1);
    assert(r as int == m * 1 + (m - r) * (-1));
    lemma_common_divides_gcd(r, m, g2 as int);
    lemma_divide_each_other(g1 as int, g2 as int);
}

/// The gcd that decides whether `checked_mod_inv` succeeds is `gcd(|a|, |n|)`:
/// the inverse fails exactly when that is not 1.
pub proof fn law_mod_inverse_gcd(a: int, n: int)
    requires
        n != 0,
    ensures
        gcd((a % (abs(n) as int)) as nat, abs(n)) == gcd(abs(a), abs(n)),
{
    let m = abs(n) as int;
    let x = abs(a) as int;
    let r = x % m;
    vstd::arithmetic::div_mod::lemma_mod_twice(x, m);
    vstd::arithmetic::div_mod::lemma_small_mod(r as nat, m as nat);
    // gcd(|a|, m) == gcd(m, r) == gcd(r, m)
    assert(gcd(abs(a), abs(n)) == gcd(abs(n), r as nat));
    assert(gcd(r as nat, abs(n)) == gcd(abs(n), (r % m) as nat));
    if a < 0 {
        vstd::arithmetic::div_mod::lemma_fundamental_div_mod(x, m);
        let q = x / m;
        if r == 0 {
            assert(a == (-q) * m) by (nonlinear_arith)
                requires x == m * q + r, r == 0, a == -x;
            vstd::arithmetic::div_mod::lemma_fundamental_div_mod_converse(a, m, -q, 0);
            assert(gcd(0, abs(n)) == gcd(abs(n), 0));
        } else {
            assert(a == (-q - 1) * m + (m - r)) by (nonlinear_arith)
                requires x == m * q + r, a == -x;
            vstd::arithmetic::div_mod::lemma_fundamental_div_mod_converse(a, m, -q - 1, m - r);
            lemma_gcd_reflect(r as nat, m as nat);
        }
    }
}

/// Shifting left multiplies by a power of two; shifting a non-negative value
/// right divides by it.
pub proof fn law_shift(a: int, k: int)
    requires
        k >= 0,
    ensures
        shl_spec(a, k) == held(a * pow2(k as nat)),
        a >= 0 ==> shr_spec(a, k) == quotient_spec(a, pow2(k as nat) as int),
{
    vstd::arithmetic::power2::lemma_pow2_pos(k as nat);
}

/// After a bit is set it reads as set, after it is cleared it reads as
/// clear, and every other bit reads as before.
pub proof fn law_bit_predicate(old_mag: nat, new_mag: nat, i: int, value: bool)
    requires
        i >= 0,
        forall|j: nat| #[trigger] bit_of(new_mag, j) == (if j == i { value } else { bit_of(old_mag, j) }),
    ensures
        (i >= 0 && bit_of(new_mag, i as nat)) == value,
        forall|j: int| j >= 0 && j != i ==> (#[trigger] bit_of(new_mag, j as nat)) == bit_of(old_mag, j as nat),
{
    assert(bit_of(new_mag, i as nat) == value);
}

/// A non-zero magnitude of `b` bits lies in `[2^(b-1), 2^b)`: `b` is
/// `floor(log2(n)) + 1`.
pub proof fn law_num_bits(n: nat)
    ensures
        n == 0 ==> bits_of(n) == 0,
        n > 0 ==> pow2((bits_of(n) - 1) as nat) <= n < pow2(bits_of(n)),
    decreases n,
{
    reveal_with_fuel(bits_of, 2);
    vstd::arithmetic::power2::lemma2_to64();
    if n > 1 {
        law_num_bits(n / 2);
        let b = bits_of(n / 2);
        assert(bits_of(n) == 1 + b);
        vstd::arithmetic::power2::lemma_pow2_unfold(b + 1);
        if b > 0 {
            vstd::arithmetic::power2::lemma_pow2_unfold(b);
        }
        lemma_bits_pos(n / 2);
    }
}

proof fn lemma_bits_pos(n: nat)
    requires
        n > 0,
    ensures
        bits_of(n) >= 1,
{
    reveal_with_fuel(bits_of, 1);
}

/// Negating twice gives the value back.
pub proof fn law_negation_involution(x0: int, x1: int, x2: int)
    requires
        x1 == -x0,
        x2 == -x1,
    ensures
        x2 == x0,
{
}

/// `cmp` orders as the integers do, so it is a total order; `abs_cmp`
/// compares magnitudes, which a sign change leaves alone.
pub proof fn law_ordering(a: int, b: int, c: int)
    ensures
        a < b || a == b || a > b,
        a <= b && b <= a ==> a == b,
        a < b && b < c ==> a < c,
        abs(a) == abs(-a),
        abs(signed(true, abs(a))) == abs(a),
{
}

} // verus!
