//! The wide integers in which amounts are counted.
//!
//! Each type holds the little-endian limbs of a value and is seen by contracts as the number that
//! those limbs stand for. The arithmetic is that of `alloy_primitives`.

use crate::fixed_bytes::FixedBytes;
use vstd::prelude::*;

verus! {

/// The number of values of a 256-bit integer.
pub open spec fn u256_modulus() -> nat {
    0x1_0000000000000000_0000000000000000_0000000000000000_0000000000000000nat
}

/// The number of values of a 512-bit integer.
pub open spec fn u512_modulus() -> nat {
    0x1_0000000000000000_0000000000000000_0000000000000000_0000000000000000_0000000000000000_0000000000000000_0000000000000000_0000000000000000nat
}

/// One past the largest value of a signed 512-bit integer.
pub open spec fn i512_limit() -> nat {
    0x8000000000000000_0000000000000000_0000000000000000_0000000000000000_0000000000000000_0000000000000000_0000000000000000_0000000000000000nat
}

/// The number that little-endian 64-bit limbs stand for.
pub open spec fn limbs_value(limbs: Seq<u64>) -> nat
    decreases limbs.len(),
{
    if limbs.len() == 0 {
        0
    } else {
        limbs[0] as nat + 0x1_0000000000000000nat * limbs_value(limbs.skip(1))
    }
}

/// The number that big-endian bytes stand for.
pub open spec fn be_bytes_value(bytes: Seq<u8>) -> nat
    decreases bytes.len(),
{
    if bytes.len() == 0 {
        0
    } else {
        0x100nat * be_bytes_value(bytes.drop_last()) + bytes.last() as nat
    }
}

/// The sum in 64 bits, held at the largest value.
pub open spec fn u64_sat_add(a: u64, b: u64) -> u64 {
    if a + b > u64::MAX {
        u64::MAX
    } else {
        (a + b) as u64
    }
}

/// The sum in 128 bits, held at the largest value.
pub open spec fn u128_sat_add(a: u128, b: u128) -> u128 {
    if a + b > u128::MAX {
        u128::MAX
    } else {
        (a + b) as u128
    }
}

/// The sum in 256 bits, wrapping around.
pub open spec fn u256_add(a: nat, b: nat) -> nat {
    (a + b) % u256_modulus()
}

/// The difference in 256 bits, wrapping around.
pub open spec fn u256_sub(a: nat, b: nat) -> nat {
    ((a - b) % (u256_modulus() as int)) as nat
}

/// The sum in 256 bits, held at the largest value.
pub open spec fn u256_sat_add(a: nat, b: nat) -> nat {
    if a + b < u256_modulus() {
        a + b
    } else {
        (u256_modulus() - 1) as nat
    }
}

/// The distance of an integer from zero.
pub open spec fn magnitude(d: int) -> nat {
    if d < 0 {
        (-d) as nat
    } else {
        d as nat
    }
}

/// An unsigned integer of 256 bits, as little-endian limbs.
#[derive(Clone, Copy, Debug)]
pub struct U256 {
    pub limbs: [u64; 4],
}

/// An unsigned integer of 512 bits, as little-endian limbs.
#[derive(Clone, Copy, Debug)]
pub struct U512 {
    pub limbs: [u64; 8],
}

/// A signed integer of 512 bits in two's complement, as little-endian limbs.
#[derive(Clone, Copy, Debug)]
pub struct I512 {
    pub limbs: [u64; 8],
}

impl View for U256 {
    type V = nat;

    closed spec fn view(&self) -> nat {
        limbs_value(self.limbs@)
    }
}

impl View for U512 {
    type V = nat;

    closed spec fn view(&self) -> nat {
        limbs_value(self.limbs@)
    }
}

impl View for I512 {
    type V = int;

    closed spec fn view(&self) -> int {
        if self.limbs@[7] < 0x8000000000000000 {
            limbs_value(self.limbs@) as int
        } else {
            limbs_value(self.limbs@) - u512_modulus()
        }
    }
}

/// A 256-bit integer stays below the number of its values.
pub proof fn lemma_u256_bound(x: U256)
    ensures
        x@ < u256_modulus(),
{
    reveal_with_fuel(limbs_value, 5);
}

impl PartialEq for U256 {
    fn eq(&self, other: &Self) -> (r: bool) {
        let mut i: usize = 0;
        while i < 4
            invariant
                0 <= i <= 4,
                forall|j: int| 0 <= j < i ==> self.limbs@[j] == other.limbs@[j],
            decreases 4 - i,
        {
            if self.limbs[i] != other.limbs[i] {
                return false;
            }
            i = i + 1;
        }
        assert(self.limbs =~= other.limbs);
        true
    }
}

impl vstd::std_specs::cmp::PartialEqSpecImpl for U256 {
    open spec fn obeys_eq_spec() -> bool {
        true
    }

    open spec fn eq_spec(&self, other: &Self) -> bool {
        *self == *other
    }
}

impl Eq for U256 {

}

impl U256 {
    /// The integer with the given little-endian limbs.
    pub fn from_limbs(limbs: [u64; 4]) -> (r: U256)
        ensures
            r.limbs == limbs,
            r@ == limbs_value(limbs@),
    {
        U256 { limbs }
    }

    /// Zero.
    pub fn zero() -> (r: U256)
        ensures
            r@ == 0,
    {
        let r = U256 { limbs: [0, 0, 0, 0] };
        proof {
            reveal_with_fuel(limbs_value, 5);
        }
        r
    }

    /// `alloy_primitives::U256::from` on a `u64`: the same number.
    #[verifier::external_body]
    pub(crate) fn from_u64(x: u64) -> (r: U256)
        ensures
            r@ == x,
    {
        U256 { limbs: alloy_primitives::U256::from(x).into_limbs() }
    }

    /// `alloy_primitives::U256::from` on a `u128`: the same number.
    #[verifier::external_body]
    pub(crate) fn from_u128(x: u128) -> (r: U256)
        ensures
            r@ == x,
    {
        U256 { limbs: alloy_primitives::U256::from(x).into_limbs() }
    }

    /// `alloy_primitives::U256::from` on a `usize`: the same number.
    #[verifier::external_body]
    pub(crate) fn from_usize(x: usize) -> (r: U256)
        ensures
            r@ == x,
    {
        U256 { limbs: alloy_primitives::U256::from(x).into_limbs() }
    }

    /// `alloy_primitives::U256::from` on 32 fixed bytes: the number that the bytes spell in
    /// big-endian order.
    #[verifier::external_body]
    pub(crate) fn from_fixed_bytes(b: FixedBytes<32>) -> (r: U256)
        ensures
            r@ == be_bytes_value(b@),
    {
        let number: alloy_primitives::U256 = alloy_primitives::FixedBytes::<32>(b.bytes).into();
        U256 { limbs: number.into_limbs() }
    }

    /// `alloy_primitives::U256::from` on a 512-bit integer: the same number. The conversion panics
    /// on a number of more than 256 bits.
    #[verifier::external_body]
    pub(crate) fn from_u512(x: U512) -> (r: U256)
        requires
            x@ < u256_modulus(),
        ensures
            r@ == x@,
    {
        let wide = alloy_primitives::U512::from_limbs(x.limbs);
        U256 { limbs: alloy_primitives::U256::from(wide).into_limbs() }
    }

    /// The operator `+` of `alloy_primitives::U256`: the sum, wrapping around.
    #[verifier::external_body]
    pub(crate) fn plus(self, rhs: U256) -> (r: U256)
        ensures
            r@ == u256_add(self@, rhs@),
    {
        let sum = alloy_primitives::U256::from_limbs(self.limbs) + alloy_primitives::U256::from_limbs(rhs.limbs);
        U256 { limbs: sum.into_limbs() }
    }

    /// The operator `-` of `alloy_primitives::U256`: the difference, wrapping around.
    #[verifier::external_body]
    pub(crate) fn minus(self, rhs: U256) -> (r: U256)
        ensures
            r@ == u256_sub(self@, rhs@),
    {
        let difference = alloy_primitives::U256::from_limbs(self.limbs) - alloy_primitives::U256::from_limbs(rhs.limbs);
        U256 { limbs: difference.into_limbs() }
    }

    /// `alloy_primitives::U256::saturating_add`: the sum, held at the largest value.
    #[verifier::external_body]
    pub(crate) fn saturating_add(self, rhs: U256) -> (r: U256)
        ensures
            r@ == u256_sat_add(self@, rhs@),
    {
        let a = alloy_primitives::U256::from_limbs(self.limbs);
        U256 { limbs: a.saturating_add(alloy_primitives::U256::from_limbs(rhs.limbs)).into_limbs() }
    }

    /// `alloy_primitives::U256::checked_sub`: the difference, or nothing where it is negative.
    #[verifier::external_body]
    pub(crate) fn checked_sub(self, rhs: U256) -> (r: Option<U256>)
        ensures
            r is Some <==> self@ >= rhs@,
            r matches Some(d) ==> d@ == self@ - rhs@,
    {
        let a = alloy_primitives::U256::from_limbs(self.limbs);
        a.checked_sub(alloy_primitives::U256::from_limbs(rhs.limbs)).map(|d| U256 { limbs: d.into_limbs() })
    }

    /// `alloy_primitives::U256::checked_mul`: the product, or nothing where it needs more than 256
    /// bits.
    #[verifier::external_body]
    pub(crate) fn checked_mul(self, rhs: U256) -> (r: Option<U256>)
        ensures
            r is Some <==> self@ * rhs@ < u256_modulus(),
            r matches Some(p) ==> p@ == self@ * rhs@,
    {
        let a = alloy_primitives::U256::from_limbs(self.limbs);
        a.checked_mul(alloy_primitives::U256::from_limbs(rhs.limbs)).map(|p| U256 { limbs: p.into_limbs() })
    }

    /// `alloy_primitives::U256::wrapping_div`: the quotient, rounded down. The division panics on a
    /// divisor of zero.
    #[verifier::external_body]
    pub(crate) fn wrapping_div(self, rhs: U256) -> (r: U256)
        requires
            rhs@ > 0,
        ensures
            r@ == self@ / rhs@,
    {
        let a = alloy_primitives::U256::from_limbs(self.limbs);
        U256 { limbs: a.wrapping_div(alloy_primitives::U256::from_limbs(rhs.limbs)).into_limbs() }
    }

    /// The operator `%` of `alloy_primitives::U256`: the remainder. The division panics on a divisor
    /// of zero.
    #[verifier::external_body]
    pub(crate) fn rem(self, rhs: U256) -> (r: U256)
        requires
            rhs@ > 0,
        ensures
            r@ == self@ % rhs@,
    {
        let remainder = alloy_primitives::U256::from_limbs(self.limbs) % alloy_primitives::U256::from_limbs(rhs.limbs);
        U256 { limbs: remainder.into_limbs() }
    }

    /// The operator `>=` of `alloy_primitives::U256`: the order of the numbers.
    #[verifier::external_body]
    pub(crate) fn at_least(self, rhs: U256) -> (r: bool)
        ensures
            r == (self@ >= rhs@),
    {
        alloy_primitives::U256::from_limbs(self.limbs) >= alloy_primitives::U256::from_limbs(rhs.limbs)
    }

    /// `alloy_primitives::U256::to` to a `usize`: the same number. The conversion panics on a number
    /// that does not fit.
    #[verifier::external_body]
    pub(crate) fn to_usize(self) -> (r: usize)
        requires
            self@ <= usize::MAX,
        ensures
            r == self@,
    {
        alloy_primitives::U256::from_limbs(self.limbs).to::<usize>()
    }
}

impl U512 {
    /// Whether the number fits in 256 bits.
    pub fn fits_u256(&self) -> (r: bool)
        ensures
            r == (self@ < u256_modulus()),
    {
        proof {
            reveal_with_fuel(limbs_value, 9);
        }
        self.limbs[4] == 0 && self.limbs[5] == 0 && self.limbs[6] == 0 && self.limbs[7] == 0
    }
}

impl I512 {
    /// The integer with the given little-endian limbs in two's complement.
    pub fn from_limbs(limbs: [u64; 8]) -> (r: I512)
        ensures
            r.limbs == limbs,
            limbs@[7] < 0x8000000000000000 ==> r@ == limbs_value(limbs@),
            limbs@[7] >= 0x8000000000000000 ==> r@ == limbs_value(limbs@) - u512_modulus(),
    {
        I512 { limbs }
    }

    /// Zero.
    pub fn zero() -> (r: I512)
        ensures
            r@ == 0,
    {
        let r = I512 { limbs: [0, 0, 0, 0, 0, 0, 0, 0] };
        proof {
            reveal_with_fuel(limbs_value, 9);
        }
        r
    }

    /// `alloy_primitives::aliases::I512::from` on a 256-bit integer: the same number, which always
    /// fits.
    #[verifier::external_body]
    pub(crate) fn from_u256(x: U256) -> (r: I512)
        ensures
            r@ == x@,
    {
        let number = alloy_primitives::U256::from_limbs(x.limbs);
        I512 { limbs: alloy_primitives::aliases::I512::from(number).into_limbs() }
    }

    /// `alloy_primitives::aliases::I512::checked_add`: the sum, or nothing where it does not fit.
    #[verifier::external_body]
    pub(crate) fn checked_add(self, rhs: I512) -> (r: Option<I512>)
        ensures
            r is Some <==> -i512_limit() <= self@ + rhs@ < i512_limit(),
            r matches Some(s) ==> s@ == self@ + rhs@,
    {
        let a = alloy_primitives::aliases::I512::from_limbs(self.limbs);
        let b = alloy_primitives::aliases::I512::from_limbs(rhs.limbs);
        a.checked_add(b).map(|s| I512 { limbs: s.into_limbs() })
    }

    /// `alloy_primitives::aliases::I512::checked_sub`: the difference, or nothing where it does not
    /// fit.
    #[verifier::external_body]
    pub(crate) fn checked_sub(self, rhs: I512) -> (r: Option<I512>)
        ensures
            r is Some <==> -i512_limit() <= self@ - rhs@ < i512_limit(),
            r matches Some(d) ==> d@ == self@ - rhs@,
    {
        let a = alloy_primitives::aliases::I512::from_limbs(self.limbs);
        let b = alloy_primitives::aliases::I512::from_limbs(rhs.limbs);
        a.checked_sub(b).map(|d| I512 { limbs: d.into_limbs() })
    }

    /// The operator `>` of `alloy_primitives::aliases::I512`: the order of the numbers.
    #[verifier::external_body]
    pub(crate) fn greater_than(self, rhs: I512) -> (r: bool)
        ensures
            r == (self@ > rhs@),
    {
        alloy_primitives::aliases::I512::from_limbs(self.limbs) > alloy_primitives::aliases::I512::from_limbs(rhs.limbs)
    }

    /// `alloy_primitives::aliases::I512::unsigned_abs`: the distance from zero, which always fits.
    #[verifier::external_body]
    pub(crate) fn unsigned_abs(self) -> (r: U512)
        ensures
            r@ == magnitude(self@),
    {
        U512 { limbs: alloy_primitives::aliases::I512::from_limbs(self.limbs).unsigned_abs().into_limbs() }
    }
}

/// A sum that is held at the largest value is the plain sum where it fits, and the largest value where
/// it does not; one that wraps around differs from the plain sum by a multiple of the number of values.
pub proof fn law_sums_in_few_bits(a: u64, b: u64, c: u128, d: u128, e: nat, f: nat)
    ensures
        a + b <= u64::MAX ==> u64_sat_add(a, b) == a + b,
        a + b > u64::MAX ==> u64_sat_add(a, b) == u64::MAX,
        c + d <= u128::MAX ==> u128_sat_add(c, d) == c + d,
        c + d > u128::MAX ==> u128_sat_add(c, d) == u128::MAX,
        e + f < u256_modulus() ==> u256_sat_add(e, f) == e + f && u256_add(e, f) == e + f,
        e + f >= u256_modulus() ==> u256_sat_add(e, f) == u256_modulus() - 1,
        u256_add(e, f) < u256_modulus(),
        u256_add(e, f) % u256_modulus() == (e + f) % u256_modulus(),
{
}

/// Bytes in big-endian order: one more byte multiplies the number by 256 and adds the byte.
pub proof fn law_big_endian_numbers(bytes: Seq<u8>, last: u8)
    ensures
        be_bytes_value(Seq::<u8>::empty()) == 0,
        be_bytes_value(bytes.push(last)) == be_bytes_value(bytes) * 256 + last,
{
    assert(bytes.push(last).drop_last() =~= bytes);
}

} // verus!
