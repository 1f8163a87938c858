//! Operator forms of the arithmetic. Each one asks in its precondition for
//! what makes the fallible form succeed, so none of them can fail.

use vstd::prelude::*;
use vstd::arithmetic::power2::pow2;
use crate::math::{abs, fits, signed, tdiv, trem};
use crate::bn::BigNum;

verus! {

impl std::ops::Add for BigNum {
    type Output = BigNum;

    fn add(self, oth: BigNum) -> (r: BigNum)
        ensures
            r@ == self@ + oth@,
            r.wf(),
    {
        self.checked_add(&oth).unwrap()
    }
}

impl vstd::std_specs::ops::AddSpecImpl for BigNum {
    open spec fn obeys_add_spec() -> bool {
        false
    }

    open spec fn add_req(self, oth: BigNum) -> bool {
        fits(self@ + oth@)
    }

    open spec fn add_spec(self, oth: BigNum) -> BigNum {
        arbitrary()
    }
}

impl std::ops::Sub for BigNum {
    type Output = BigNum;

    fn sub(self, oth: BigNum) -> (r: BigNum)
        ensures
            r@ == self@ - oth@,
            r.wf(),
    {
        self.checked_sub(&oth).unwrap()
    }
}

impl vstd::std_specs::ops::SubSpecImpl for BigNum {
    open spec fn obeys_sub_spec() -> bool {
        false
    }

    open spec fn sub_req(self, oth: BigNum) -> bool {
        fits(self@ - oth@)
    }

    open spec fn sub_spec(self, oth: BigNum) -> BigNum {
        arbitrary()
    }
}

impl std::ops::Mul for BigNum {
    type Output = BigNum;

    fn mul(self, oth: BigNum) -> (r: BigNum)
        ensures
            r@ == self@ * oth@,
            r.wf(),
    {
        self.checked_mul(&oth).unwrap()
    }
}

impl vstd::std_specs::ops::MulSpecImpl for BigNum {
    open spec fn obeys_mul_spec() -> bool {
        false
    }

    open spec fn mul_req(self, oth: BigNum) -> bool {
        fits(self@ * oth@)
    }

    open spec fn mul_spec(self, oth: BigNum) -> BigNum {
        arbitrary()
    }
}

impl std::ops::Div for BigNum {
    type Output = BigNum;

    fn div(self, oth: BigNum) -> (r: BigNum)
        ensures
            r@ == tdiv(self@, oth@),
            r.wf(),
    {
        self.checked_div(&oth).unwrap()
    }
}

impl vstd::std_specs::ops::DivSpecImpl for BigNum {
    open spec fn obeys_div_spec() -> bool {
        false
    }

    open spec fn div_req(self, oth: BigNum) -> bool {
        oth@ != 0 && fits(tdiv(self@, oth@))
    }

    open spec fn div_spec(self, oth: BigNum) -> BigNum {
        arbitrary()
    }
}

impl std::ops::Rem for BigNum {
    type Output = BigNum;

    fn rem(self, oth: BigNum) -> (r: BigNum)
        ensures
            r@ == trem(self@, oth@),
            r.wf(),
    {
        self.checked_mod(&oth).unwrap()
    }
}

impl vstd::std_specs::ops::RemSpecImpl for BigNum {
    open spec fn obeys_rem_spec() -> bool {
        false
    }

    open spec fn rem_req(self, oth: BigNum) -> bool {
        oth@ != 0 && fits(trem(self@, oth@))
    }

    open spec fn rem_spec(self, oth: BigNum) -> BigNum {
        arbitrary()
    }
}

impl std::ops::Shl<i32> for BigNum {
    type Output = BigNum;

    fn shl(self, n: i32) -> (r: BigNum)
        ensures
            r@ == self@ * pow2(n as nat),
            r.wf(),
    {
        self.checked_shl(&n).unwrap()
    }
}

impl vstd::std_specs::ops::ShlSpecImpl<i32> for BigNum {
    open spec fn obeys_shl_spec() -> bool {
        false
    }

    open spec fn shl_req(self, n: i32) -> bool {
        n >= 0 && fits(self@ * pow2(n as nat))
    }

    open spec fn shl_spec(self, n: i32) -> BigNum {
        arbitrary()
    }
}

impl std::ops::Shr<i32> for BigNum {
    type Output = BigNum;

    fn shr(self, n: i32) -> (r: BigNum)
        ensures
            r@ == signed(self@ < 0, abs(self@) / pow2(n as nat)),
            r.wf(),
    {
        self.checked_shr(&n).unwrap()
    }
}

impl vstd::std_specs::ops::ShrSpecImpl<i32> for BigNum {
    open spec fn obeys_shr_spec() -> bool {
        false
    }

    open spec fn shr_req(self, n: i32) -> bool {
        n >= 0 && self.wf() && fits(signed(self@ < 0, abs(self@) / pow2(n as nat)))
    }

    open spec fn shr_spec(self, n: i32) -> BigNum {
        arbitrary()
    }
}

} // verus!
