//! 256-bit unsigned intermediates for products of two 128-bit amounts.
//!
//! [`Wide`] carries the four little-endian 64-bit words of a
//! `primitive_types::U256`. The arithmetic itself is done by that crate; the
//! functions marked `external_body` below state what each of its operations
//! returns, and Verus takes those statements on trust.

use primitive_types::U256;
use vstd::prelude::*;

verus! {

/// Two to the power 64: the weight of one word.
pub open spec fn word_base() -> nat {
    0x1_0000_0000_0000_0000nat
}

/// Two to the power 128: one more than the largest `u128`.
pub open spec fn narrow_limit() -> nat {
    0x1_0000_0000_0000_0000_0000_0000_0000_0000nat
}

/// Two to the power 256: one more than the largest value a [`Wide`] holds.
pub open spec fn wide_limit() -> nat {
    0x1_0000_0000_0000_0000_0000_0000_0000_0000_0000_0000_0000_0000_0000_0000_0000_0000nat
}

/// A 256-bit unsigned integer as four 64-bit words, least significant first.
#[derive(Clone, Copy, Debug, PartialEq, Eq)]
pub struct Wide {
    pub limbs: [u64; 4],
}

impl View for Wide {
    type V = nat;

    /// The number that the four words spell.
    open spec fn view(&self) -> nat {
        (self.limbs[0] as nat) + (self.limbs[1] as nat) * word_base() + (self.limbs[2] as nat)
            * word_base() * word_base() + (self.limbs[3] as nat) * word_base() * word_base()
            * word_base()
    }
}

/// `n` is the integer square root of `x`: the largest number whose square
/// does not exceed `x`.
pub open spec fn is_floor_sqrt(n: nat, x: nat) -> bool {
    n * n <= x < (n + 1) * (n + 1)
}

impl Wide {
    /// Calls `U256::from(u128)`: the result is the same number, widened.
    #[verifier::external_body]
    pub(crate) fn from_u128(value: u128) -> (r: Wide)
        ensures
            r@ == value,
    {
        Wide { limbs: U256::from(value).0 }
    }

    /// Calls `u128::try_from(U256)`: the same number where it fits in 128
    /// bits, and no number where it does not.
    #[verifier::external_body]
    pub(crate) fn to_u128(self) -> (r: Option<u128>)
        ensures
            self@ < narrow_limit() ==> r == Some(self@ as u128),
            self@ >= narrow_limit() ==> r.is_none(),
    {
        u128::try_from(U256(self.limbs)).ok()
    }

    /// Calls the `*` of `U256`, which panics when the product needs more than
    /// 256 bits: such factors are left out, and the result is the product.
    #[verifier::external_body]
    pub(crate) fn times(self, other: Wide) -> (r: Wide)
        requires
            self@ * other@ < wide_limit(),
        ensures
            r@ == self@ * other@,
    {
        Wide { limbs: (U256(self.limbs) * U256(other.limbs)).0 }
    }

    /// Calls `U256::checked_mul`: the product, or nothing where it needs more
    /// than 256 bits.
    #[verifier::external_body]
    pub(crate) fn checked_mul(self, other: Wide) -> (r: Option<Wide>)
        ensures
            self@ * other@ < wide_limit() ==> r.is_some() && r.unwrap()@ == self@ * other@,
            self@ * other@ >= wide_limit() ==> r.is_none(),
    {
        U256(self.limbs).checked_mul(U256(other.limbs)).map(|p| Wide { limbs: p.0 })
    }

    /// Calls `U256::checked_add`: the sum, or nothing where it needs more
    /// than 256 bits.
    #[verifier::external_body]
    pub(crate) fn checked_add(self, other: Wide) -> (r: Option<Wide>)
        ensures
            self@ + other@ < wide_limit() ==> r.is_some() && r.unwrap()@ == self@ + other@,
            self@ + other@ >= wide_limit() ==> r.is_none(),
    {
        U256(self.limbs).checked_add(U256(other.limbs)).map(|s| Wide { limbs: s.0 })
    }

    /// Calls `U256::checked_sub`: the difference, or nothing where `other`
    /// is the larger.
    #[verifier::external_body]
    pub(crate) fn checked_sub(self, other: Wide) -> (r: Option<Wide>)
        ensures
            self@ >= other@ ==> r.is_some() && r.unwrap()@ == self@ - other@,
            self@ < other@ ==> r.is_none(),
    {
        U256(self.limbs).checked_sub(U256(other.limbs)).map(|d| Wide { limbs: d.0 })
    }

    /// Calls `U256::saturating_sub`: the difference, or zero where `other`
    /// is the larger.
    #[verifier::external_body]
    pub(crate) fn saturating_sub(self, other: Wide) -> (r: Wide)
        ensures
            self@ >= other@ ==> r@ == self@ - other@,
            self@ < other@ ==> r@ == 0,
    {
        Wide { limbs: U256(self.limbs).saturating_sub(U256(other.limbs)).0 }
    }

    /// Calls `U256::checked_div`: the quotient rounded down, or nothing where
    /// the divisor is zero.
    #[verifier::external_body]
    pub(crate) fn checked_div(self, other: Wide) -> (r: Option<Wide>)
        ensures
            other@ != 0 ==> r.is_some() && r.unwrap()@ == self@ / other@,
            other@ == 0 ==> r.is_none(),
    {
        U256(self.limbs).checked_div(U256(other.limbs)).map(|q| Wide { limbs: q.0 })
    }

    /// Calls `U256::integer_sqrt`: the largest number whose square does not
    /// exceed `self`.
    #[verifier::external_body]
    pub(crate) fn integer_sqrt(self) -> (r: Wide)
        ensures
            is_floor_sqrt(r@, self@),
    {
        Wide { limbs: U256(self.limbs).integer_sqrt().0 }
    }
}

/// The product of two 128-bit amounts always fits in 256 bits.
pub proof fn lemma_product_fits(a: nat, b: nat)
    requires
        a < narrow_limit(),
        b < narrow_limit(),
    ensures
        a * b < wide_limit(),
        a * b <= (narrow_limit() - 1) * (narrow_limit() - 1),
{
    assert(a * b <= (narrow_limit() - 1) * (narrow_limit() - 1)) by (nonlinear_arith)
        requires
            a <= narrow_limit() - 1,
            b <= narrow_limit() - 1,
    ;
}

/// The full product of two 128-bit amounts, kept in 256 bits so that nothing
/// is lost.
pub fn casted_mul(a: u128, b: u128) -> (r: Wide)
    ensures
        r@ == a * b,
{
    proof {
        lemma_product_fits(a as nat, b as nat);
    }
    Wide::from_u128(a).times(Wide::from_u128(b))
}

} // verus!
