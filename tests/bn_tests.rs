use bignum::{BigNum, BnError, RNGProperty};
use std::cmp::Ordering;

fn num(x: i64) -> BigNum {
    let mut v = BigNum::new_from(x.unsigned_abs()).unwrap();
    if x < 0 {
        v.negate();
    }
    v
}

fn dec(v: &BigNum) -> String {
    v.to_dec_str()
}

#[test]
fn test_to_from_slice() {
    let v0 = BigNum::new_from(10203004_u64).unwrap();
    let vec = v0.to_vec();
    let v1 = BigNum::new_from_slice(vec.as_slice()).unwrap();

    assert!(v0 == v1);
}

#[test]
fn test_negation() {
    let a = BigNum::new_from(909829283_u64).unwrap();

    assert!(!a.is_negative());
    assert!((-a).is_negative());
}

#[test]
fn test_prime_numbers() {
    let a = BigNum::new_from(19029017_u64).unwrap();
    let p = BigNum::checked_generate_prime(128, true, None, Some(&a)).unwrap();

    assert!(p.is_prime(100).unwrap());
    assert!(p.is_prime_fast(100, true).unwrap());
}

#[test]
fn bytes_of_zero_are_empty() {
    let z = BigNum::new().unwrap();
    assert!(z.to_vec().is_empty());
    assert_eq!(z.num_bytes(), 0);
    assert!(BigNum::new_from_slice(&[]).unwrap() == z);
}

#[test]
fn bytes_are_big_endian_and_minimal() {
    let v = BigNum::new_from(0x0102_0304).unwrap();
    assert_eq!(v.to_vec(), vec![1u8, 2, 3, 4]);
    let w = BigNum::new_from_slice(&[0, 0, 1, 0]).unwrap();
    assert_eq!(dec(&w), "256");
    assert_eq!(w.to_vec(), vec![1u8, 0]);
}

#[test]
fn bytes_round_trip_drops_sign() {
    let v = num(-10203004);
    let back = BigNum::new_from_slice(&v.to_vec()).unwrap();
    assert_eq!(dec(&back), "10203004");
}

#[test]
fn decimal_round_trip() {
    let big = BigNum::new_from(u64::MAX).unwrap();
    let sq = big.checked_mul(&num(1 << 40)).unwrap();
    let neg = -sq;
    let s = dec(&neg);
    assert_eq!(s.parse::<i128>().unwrap(), -(u64::MAX as i128) * (1i128 << 40));
    assert_eq!(dec(&BigNum::zero()), "0");
    assert_eq!(dec(&num(-42)), "-42");
}

#[test]
fn add_and_mul_commute_and_associate() {
    let a = num(-123456789);
    let b = num(987654321);
    let c = num(-55);
    assert!(a.checked_add(&b).unwrap() == b.checked_add(&a).unwrap());
    assert!(a.checked_mul(&b).unwrap() == b.checked_mul(&a).unwrap());
    let l = a.checked_add(&b).unwrap().checked_add(&c).unwrap();
    let r = a.checked_add(&b.checked_add(&c).unwrap()).unwrap();
    assert!(l == r);
    assert_eq!(dec(&l), "864197477");
    let l = a.checked_mul(&b).unwrap().checked_mul(&c).unwrap();
    let r = a.checked_mul(&b.checked_mul(&c).unwrap()).unwrap();
    assert!(l == r);
    assert_eq!(dec(&l), "6706294711194939795");
}

#[test]
fn mul_distributes_over_add() {
    let a = num(-17);
    let b = num(40);
    let c = num(-3);
    let l = a.checked_mul(&b.checked_add(&c).unwrap()).unwrap();
    let r = a.checked_mul(&b).unwrap().checked_add(&a.checked_mul(&c).unwrap()).unwrap();
    assert!(l == r);
    assert_eq!(dec(&l), "-629");
}

#[test]
fn sub_undoes_add() {
    let a = num(5);
    let b = num(-12);
    let s = a.checked_add(&b).unwrap();
    assert_eq!(dec(&s), "-7");
    assert!(s.checked_sub(&b).unwrap() == a);
    assert_eq!(dec(&num(3).checked_sub(&num(10)).unwrap()), "-7");
}

#[test]
fn division_truncates_toward_zero() {
    let a = num(-7);
    let b = num(2);
    let q = a.checked_div(&b).unwrap();
    let r = a.checked_mod(&b).unwrap();
    assert_eq!(dec(&q), "-3");
    assert_eq!(dec(&r), "-1");
    let back = q.checked_mul(&b).unwrap().checked_add(&r).unwrap();
    assert!(back == a);
    assert_eq!(dec(&num(7).checked_div(&num(-2)).unwrap()), "-3");
    assert_eq!(dec(&num(7).checked_mod(&num(-2)).unwrap()), "1");
}

#[test]
fn division_by_zero_fails() {
    let z = BigNum::zero();
    assert!(matches!(num(5).checked_div(&z), Err(BnError::DivisionByZero)));
    assert!(matches!(num(5).checked_mod(&z), Err(BnError::DivisionByZero)));
    assert!(matches!(num(5).checked_nnmod(&z), Err(BnError::DivisionByZero)));
    assert!(matches!(num(5).checked_mod_inv(&z), Err(BnError::DivisionByZero)));
}

#[test]
fn nnmod_of_negative() {
    let r = num(-17).checked_nnmod(&num(5)).unwrap();
    assert_eq!(dec(&r), "3");
    assert_eq!(dec(&num(-15).checked_nnmod(&num(5)).unwrap()), "0");
    assert_eq!(dec(&num(17).checked_nnmod(&num(-5)).unwrap()), "2");
}

#[test]
fn modular_operations_are_canonical() {
    let n = num(7);
    assert_eq!(dec(&num(5).checked_mod_add(&num(4), &n).unwrap()), "2");
    assert_eq!(dec(&num(2).checked_mod_sub(&num(5), &n).unwrap()), "4");
    assert_eq!(dec(&num(-3).checked_mod_mul(&num(5), &n).unwrap()), "6");
    assert_eq!(dec(&num(-3).checked_mod_sqr(&n).unwrap()), "2");
    assert_eq!(dec(&num(4).checked_mod_exp(&num(13), &num(497)).unwrap()), "445");
    assert_eq!(dec(&num(-2).checked_mod_exp(&num(3), &num(5)).unwrap()), "2");
}

#[test]
fn mod_inverse_found() {
    let a = num(7);
    let b = num(11);
    let inv = a.checked_mod_inv(&b).unwrap();
    assert_eq!(dec(&inv), "8");
    assert_eq!(dec(&a.checked_mod_mul(&inv, &b).unwrap()), "1");
}

#[test]
fn mod_inverse_missing() {
    let r = num(6).checked_mod_inv(&num(9));
    assert!(matches!(r, Err(BnError::NoInverse)));
    assert_eq!(dec(&num(6).checked_gcd(&num(9)).unwrap()), "3");
}

#[test]
fn gcd_values() {
    assert_eq!(dec(&num(-12).checked_gcd(&num(18)).unwrap()), "6");
    assert_eq!(dec(&BigNum::zero().checked_gcd(&BigNum::zero()).unwrap()), "0");
    assert_eq!(dec(&num(0).checked_gcd(&num(-9)).unwrap()), "9");
}

#[test]
fn powers() {
    assert_eq!(dec(&num(-2).checked_exp(&num(3)).unwrap()), "-8");
    assert_eq!(dec(&num(-2).checked_exp(&num(4)).unwrap()), "16");
    assert_eq!(dec(&num(9).checked_exp(&num(0)).unwrap()), "1");
    assert_eq!(dec(&num(-9).checked_sqr().unwrap()), "81");
}

#[test]
fn shifts_scale_by_powers_of_two() {
    let a = num(3);
    assert_eq!(dec(&a.checked_shl(&4).unwrap()), "48");
    assert!(a.checked_shl(&4).unwrap() == a.checked_mul(&num(16)).unwrap());
    assert_eq!(dec(&num(100).checked_shr(&3).unwrap()), "12");
    assert!(num(100).checked_shr(&3).unwrap() == num(100).checked_div(&num(8)).unwrap());
    assert_eq!(dec(&num(-17).checked_shr(&2).unwrap()), "-4");
    assert_eq!(dec(&num(-5).checked_shl1().unwrap()), "-10");
    assert_eq!(dec(&num(5).checked_shr1().unwrap()), "2");
    assert!(matches!(a.checked_shl(&-1), Err(BnError::InvalidArgument)));
    assert!(matches!(a.checked_shr(&-1), Err(BnError::InvalidArgument)));
}

#[test]
fn bits_set_and_clear() {
    let mut v = num(0b1010);
    v.set_bit(0).unwrap();
    assert!(v.is_bit_set(0));
    assert!(v.is_bit_set(1));
    assert!(v.is_bit_set(3));
    assert!(!v.is_bit_set(2));
    assert_eq!(dec(&v), "11");
    v.clear_bit(3).unwrap();
    assert!(!v.is_bit_set(3));
    assert_eq!(dec(&v), "3");
    v.clear_bit(100).unwrap();
    assert_eq!(dec(&v), "3");
    assert!(!v.is_bit_set(-1));
    assert!(!v.is_bit_set(64));
    assert!(matches!(v.set_bit(-1), Err(BnError::InvalidArgument)));
    assert!(matches!(v.clear_bit(-1), Err(BnError::InvalidArgument)));
}

#[test]
fn clearing_the_last_bit_of_a_negative_gives_zero() {
    let mut v = num(-4);
    v.clear_bit(2).unwrap();
    assert!(v.is_zero());
    assert!(!v.is_negative());
}

#[test]
fn mask_keeps_low_bits() {
    let mut v = num(-0b1101_0110);
    v.mask_bits(4).unwrap();
    assert_eq!(dec(&v), "-6");
    let mut w = num(5);
    assert!(matches!(w.mask_bits(4), Err(BnError::InvalidArgument)));
    assert_eq!(dec(&w), "5");
    assert!(matches!(w.mask_bits(-1), Err(BnError::InvalidArgument)));
}

#[test]
fn bit_counts() {
    assert_eq!(BigNum::zero().num_bits(), 0);
    assert_eq!(num(1).num_bits(), 1);
    assert_eq!(num(255).num_bits(), 8);
    assert_eq!(num(-256).num_bits(), 9);
    assert_eq!(num(256).num_bytes(), 2);
    assert_eq!(num(255).num_bytes(), 1);
}

#[test]
fn negate_twice_is_identity() {
    let mut v = num(123);
    v.negate();
    assert_eq!(dec(&v), "-123");
    v.negate();
    assert_eq!(dec(&v), "123");
    let mut z = BigNum::zero();
    z.negate();
    assert!(!z.is_negative());
}

#[test]
fn ordering_is_signed_and_abs_cmp_is_not() {
    let a = num(-5);
    let b = num(3);
    assert_eq!(a.cmp(&b), Ordering::Less);
    assert_eq!(b.cmp(&a), Ordering::Greater);
    assert!(a < b);
    assert_eq!(a.partial_cmp(&num(-5)), Some(Ordering::Equal));
    assert_eq!(a.abs_cmp(num(3)), Ordering::Greater);
    assert_eq!(num(-3).abs_cmp(num(3)), Ordering::Equal);
    assert!(BigNum::one() == num(1));
    assert!(BigNum::one().clone() == BigNum::one());
}

#[test]
fn random_values_have_their_shape() {
    for _ in 0..20 {
        let v = BigNum::checked_new_random(64, RNGProperty::MsbOne, true).unwrap();
        assert_eq!(v.num_bits(), 64);
        assert!(v.is_bit_set(0));
        let w = BigNum::checked_new_pseudo_random(40, RNGProperty::TwoMsbOne, false).unwrap();
        assert_eq!(w.num_bits(), 40);
        assert!(w.is_bit_set(38));
        let u = BigNum::checked_new_random(10, RNGProperty::MsbMaybeZero, false).unwrap();
        assert!(u.num_bits() <= 10);
    }
    assert!(BigNum::checked_new_random(0, RNGProperty::MsbMaybeZero, false).unwrap().is_zero());
    assert!(matches!(
        BigNum::checked_new_random(0, RNGProperty::MsbOne, false),
        Err(BnError::InvalidArgument)
    ));
    assert!(matches!(
        BigNum::checked_new_random(1, RNGProperty::TwoMsbOne, false),
        Err(BnError::InvalidArgument)
    ));
    assert!(matches!(
        BigNum::checked_new_random(-1, RNGProperty::MsbMaybeZero, false),
        Err(BnError::InvalidArgument)
    ));
    assert!(matches!(
        BigNum::checked_new_random(i32::MAX, RNGProperty::MsbMaybeZero, false),
        Err(BnError::TooLarge)
    ));
}

#[test]
fn random_in_range_stays_below() {
    let n = num(10);
    for _ in 0..50 {
        let v = n.checked_rand_in_range().unwrap();
        assert!(!v.is_negative() && v < n);
        let w = n.checked_pseudo_rand_in_range().unwrap();
        assert!(!w.is_negative() && w < n);
    }
    assert!(matches!(BigNum::zero().checked_rand_in_range(), Err(BnError::InvalidArgument)));
    assert!(matches!(num(-3).checked_pseudo_rand_in_range(), Err(BnError::InvalidArgument)));
}

#[test]
fn primality_of_small_values() {
    assert!(num(2).is_prime(10).unwrap());
    assert!(num(97).is_prime(10).unwrap());
    assert!(!num(91).is_prime(10).unwrap());
    assert!(!num(1).is_prime_fast(10, false).unwrap());
    assert!(!num(-7).is_prime(10).unwrap());
}

#[test]
fn generated_prime_meets_congruence() {
    let add = num(12);
    let rem = num(7);
    let p = BigNum::checked_generate_prime(64, false, Some(&add), Some(&rem)).unwrap();
    assert_eq!(p.num_bits(), 64);
    assert!(p.checked_mod(&add).unwrap() == rem);
    assert!(p.is_prime(20).unwrap());
    let q = BigNum::checked_generate_prime(48, false, Some(&num(10)), None).unwrap();
    assert_eq!(dec(&q.checked_mod(&num(10)).unwrap()), "1");
}

#[test]
fn generated_safe_prime_has_prime_half() {
    let p = BigNum::checked_generate_prime(64, true, None, None).unwrap();
    assert_eq!(p.num_bits(), 64);
    let q = p.checked_shr1().unwrap();
    assert!(q.is_prime(20).unwrap());
}

#[test]
fn prime_search_rejects_bad_arguments() {
    assert!(matches!(BigNum::checked_generate_prime(1, false, None, None), Err(BnError::InvalidArgument)));
    assert!(matches!(BigNum::checked_generate_prime(2, true, None, None), Err(BnError::InvalidArgument)));
    assert!(matches!(
        BigNum::checked_generate_prime(32, false, Some(&num(0)), None),
        Err(BnError::InvalidArgument)
    ));
    assert!(matches!(
        BigNum::checked_generate_prime(32, false, Some(&num(6)), Some(&num(6))),
        Err(BnError::InvalidArgument)
    ));
}

#[test]
fn operator_forms() {
    assert_eq!(dec(&(num(7) + num(-10))), "-3");
    assert_eq!(dec(&(num(7) - num(-10))), "17");
    assert_eq!(dec(&(num(-7) * num(6))), "-42");
    assert_eq!(dec(&(num(-7) / num(2))), "-3");
    assert_eq!(dec(&(num(-7) % num(2))), "-1");
    assert_eq!(dec(&(num(-3) << 5)), "-96");
    assert_eq!(dec(&(num(-96) >> 5)), "-3");
    assert_eq!(dec(&(-num(8))), "-8");
}

#[test]
fn prime_candidate_is_forced_and_moved() {
    let c = BigNum::prime_candidate(&vec![0u32], 8, None, None);
    assert_eq!(c, vec![129u32]);
    let add = num(10);
    let rem = num(3);
    let c = BigNum::prime_candidate(&vec![0b0101_0000u32], 8, Some(&add), Some(&rem));
    // 0b1101_0001 = 209, moved to 200 + 3
    assert_eq!(c, vec![203u32]);
    assert!(BigNum::accept_candidate(&vec![203u32], 8, false, true, false));
    assert!(!BigNum::accept_candidate(&vec![203u32], 9, false, true, false));
    assert!(!BigNum::accept_candidate(&vec![203u32], 8, true, true, false));
}

#[test]
fn small_safe_primes_are_found() {
    for bits in 3..7 {
        let p = BigNum::checked_generate_prime(bits, true, None, None).unwrap();
        assert_eq!(p.num_bits(), bits);
        assert!(p.checked_shr1().unwrap().is_prime(10).unwrap());
    }
}

#[test]
fn huge_power_is_refused_early() {
    let r = num(3).checked_exp(&BigNum::new_from(1u64 << 40).unwrap());
    assert!(matches!(r, Err(BnError::TooLarge)));
    let r = num(-2).checked_exp(&num(600_000_000));
    assert!(matches!(r, Err(BnError::TooLarge)));
    assert_eq!(dec(&num(1).checked_exp(&num(1_000_000)).unwrap()), "1");
}
