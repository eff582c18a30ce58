//! Arbitrary-precision natural numbers, held as base-2^32 digits
//! (least significant first); the arithmetic itself is done by `num`.
use num::bigint::RandBigInt;
use num::BigUint;
use num::ToPrimitive;
use vstd::arithmetic::power::pow;
use vstd::prelude::*;

verus! {

/// The value of a little-endian sequence of base-2^32 digits.
pub open spec fn digits_value(d: Seq<u32>) -> nat
    decreases d.len(),
{
    if d.len() == 0 {
        0
    } else {
        d[0] as nat + 4294967296 * digits_value(d.drop_first())
    }
}

/// A natural number of any size.
#[derive(Clone, Debug)]
pub struct Natural {
    pub digits: Vec<u32>,
}

impl View for Natural {
    type V = nat;

    open spec fn view(&self) -> nat {
        digits_value(self.digits@)
    }
}

impl Natural {
    /// The number whose base-2^32 digits, least significant first, are `digits`.
    pub fn from_digits(digits: Vec<u32>) -> (r: Natural)
        ensures
            r@ == digits_value(digits@),
    {
        Natural { digits }
    }

    /// The number `x`.
    pub fn from_u64(x: u64) -> (r: Natural)
        ensures
            r@ == x as nat,
    {
        big_from_u64(x)
    }

    /// The value as a `u64`, or `None` when it does not fit.
    pub fn to_u64(&self) -> (r: Option<u64>)
        ensures
            r == (if self@ <= u64::MAX as nat {
                Some(self@ as u64)
            } else {
                None::<u64>
            }),
    {
        big_to_u64(self)
    }
}

/// Relies on `BigUint: From<u64>` and `BigUint::to_u32_digits`: the digits of `x`.
#[verifier::external_body]
fn big_from_u64(x: u64) -> (r: Natural)
    ensures
        r@ == x as nat,
{
    Natural { digits: BigUint::from(x).to_u32_digits() }
}

/// Relies on `ToPrimitive::to_u64` for `BigUint`: `None` when the value does not fit.
#[verifier::external_body]
fn big_to_u64(n: &Natural) -> (r: Option<u64>)
    ensures
        r == (if n@ <= u64::MAX as nat {
            Some(n@ as u64)
        } else {
            None::<u64>
        }),
{
    BigUint::new(n.digits.clone()).to_u64()
}

/// Relies on `BigUint`'s `==`: equality of values.
#[verifier::external_body]
pub(crate) fn nat_eq(a: &Natural, b: &Natural) -> (r: bool)
    ensures
        r == (a@ == b@),
{
    BigUint::new(a.digits.clone()) == BigUint::new(b.digits.clone())
}

/// Relies on `BigUint`'s `<`: order of values.
#[verifier::external_body]
pub(crate) fn nat_lt(a: &Natural, b: &Natural) -> (r: bool)
    ensures
        r == (a@ < b@),
{
    BigUint::new(a.digits.clone()) < BigUint::new(b.digits.clone())
}

/// Relies on `BigUint`'s `*`.
#[verifier::external_body]
pub(crate) fn nat_mul(a: &Natural, b: &Natural) -> (r: Natural)
    ensures
        r@ == a@ * b@,
{
    Natural { digits: (BigUint::new(a.digits.clone()) * BigUint::new(b.digits.clone())).to_u32_digits() }
}

/// Relies on `BigUint`'s `-`, which panics on a negative result.
#[verifier::external_body]
pub(crate) fn nat_sub(a: &Natural, b: &Natural) -> (r: Natural)
    requires
        a@ >= b@,
    ensures
        r@ == a@ - b@,
{
    Natural { digits: (BigUint::new(a.digits.clone()) - BigUint::new(b.digits.clone())).to_u32_digits() }
}

/// Relies on `BigUint`'s `/`, truncating division, which panics on a zero divisor.
#[verifier::external_body]
pub(crate) fn nat_div(a: &Natural, b: &Natural) -> (r: Natural)
    requires
        b@ > 0,
    ensures
        r@ == a@ / b@,
{
    Natural { digits: (BigUint::new(a.digits.clone()) / BigUint::new(b.digits.clone())).to_u32_digits() }
}

/// Relies on `BigUint`'s `%`, which panics on a zero divisor.
#[verifier::external_body]
pub(crate) fn nat_rem(a: &Natural, b: &Natural) -> (r: Natural)
    requires
        b@ > 0,
    ensures
        r@ == a@ % b@,
{
    Natural { digits: (BigUint::new(a.digits.clone()) % BigUint::new(b.digits.clone())).to_u32_digits() }
}

/// Relies on `Pow<usize>` for `BigUint`: the exact power.
#[verifier::external_body]
pub(crate) fn nat_pow(a: &Natural, e: usize) -> (r: Natural)
    ensures
        r@ == pow(a@ as int, e as nat),
{
    Natural { digits: num::traits::Pow::pow(BigUint::new(a.digits.clone()), e).to_u32_digits() }
}

/// Relies on `BigUint::modpow`: `a^e mod m`; it panics on a zero modulus.
#[verifier::external_body]
pub(crate) fn nat_mod_pow(a: &Natural, e: &Natural, m: &Natural) -> (r: Natural)
    requires
        m@ > 0,
    ensures
        r@ == pow(a@ as int, e@) % (m@ as int),
{
    let (a, e, m) = (BigUint::new(a.digits.clone()), BigUint::new(e.digits.clone()), BigUint::new(m.digits.clone()));
    Natural { digits: a.modpow(&e, &m).to_u32_digits() }
}

/// Relies on `RandBigInt::gen_biguint_range` over the thread-local generator:
/// a value in `[lo, hi)`; it panics unless `lo < hi`.
#[verifier::external_body]
pub(crate) fn nat_sample(lo: &Natural, hi: &Natural) -> (r: Natural)
    requires
        lo@ < hi@,
    ensures
        lo@ <= r@ < hi@,
{
    let (lo, hi) = (BigUint::new(lo.digits.clone()), BigUint::new(hi.digits.clone()));
    Natural { digits: rand::thread_rng().gen_biguint_range(&lo, &hi).to_u32_digits() }
}

} // verus!
