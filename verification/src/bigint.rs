//! Arbitrary-precision integers and rationals held as plain digits, with the
//! arithmetic delegated to `num-bigint`, `num-integer` and `num-rational`.

use crate::arith::{abs, gcd};
use num_bigint::{BigInt, Sign};
use num_integer::Integer;
use num_rational::BigRational;
use vstd::prelude::*;

verus! {

/// Value of little-endian base-2^32 digits.
pub open spec fn digits_value(d: Seq<u32>) -> nat
    decreases d.len(),
{
    if d.len() == 0 {
        0
    } else {
        (d[0] as nat) + 4294967296 * digits_value(d.drop_first())
    }
}

/// An integer of any size: a sign and the magnitude's base-2^32 digits, least
/// significant first, with no leading zero digit.
#[derive(Debug, PartialEq, Eq)]
pub struct BigInteger {
    negative: bool,
    magnitude: Vec<u32>,
}

impl View for BigInteger {
    type V = int;

    closed spec fn view(&self) -> int {
        if self.negative {
            -digits_value(self.magnitude@)
        } else {
            digits_value(self.magnitude@) as int
        }
    }
}

/// Normalized digits of a non-zero magnitude have a positive value, at least
/// `2^32` when there are several.
proof fn lemma_digits_positive(d: Seq<u32>)
    requires
        d.len() > 0,
        d.last() != 0,
    ensures
        digits_value(d) > 0,
        d.len() > 1 ==> digits_value(d) >= 4294967296,
        d.len() == 1 ==> digits_value(d) == d[0],
    decreases d.len(),
{
    if d.len() > 1 {
        assert(d.drop_first().last() == d.last());
        lemma_digits_positive(d.drop_first());
    } else {
        assert(d.drop_first().len() == 0);
        assert(digits_value(d.drop_first()) == 0);
    }
}

impl BigInteger {
    #[verifier::type_invariant]
    closed spec fn normalized(self) -> bool {
        &&& self.magnitude.len() == 0 ==> !self.negative
        &&& self.magnitude.len() > 0 ==> self.magnitude@.last() != 0
    }

    /// The integer `n`.
    pub fn from_i64(n: i64) -> (r: BigInteger)
        ensures
            r@ == n as int,
    {
        big_from_i64(n)
    }

    /// Whether the value is zero.
    pub fn is_zero(&self) -> (r: bool)
        ensures
            r == (self@ == 0),
    {
        proof {
            use_type_invariant(self);
            if self.magnitude.len() > 0 {
                lemma_digits_positive(self.magnitude@);
            }
        }
        self.magnitude.len() == 0
    }

    /// Whether the value is one.
    pub fn is_one(&self) -> (r: bool)
        ensures
            r == (self@ == 1),
    {
        proof {
            use_type_invariant(self);
            if self.magnitude.len() > 0 {
                lemma_digits_positive(self.magnitude@);
            }
        }
        !self.negative && self.magnitude.len() == 1 && self.magnitude[0] == 1
    }

    /// Whether the value is below zero.
    pub fn is_negative(&self) -> (r: bool)
        ensures
            r == (self@ < 0),
    {
        proof {
            use_type_invariant(self);
            if self.magnitude.len() > 0 {
                lemma_digits_positive(self.magnitude@);
            }
        }
        self.negative
    }

    /// Whether two values are equal.
    pub fn same(&self, other: &BigInteger) -> (r: bool)
        ensures
            r == (self@ == other@),
    {
        big_eq(self, other)
    }

    /// The sign (`true` for a negative value) and the base-2^32 digits of the
    /// magnitude, least significant first.
    pub fn to_sign_digits(&self) -> (r: (bool, Vec<u32>))
        ensures
            (if r.0 {
                -digits_value(r.1@)
            } else {
                digits_value(r.1@) as int
            }) == self@,
    {
        (self.negative, self.duplicate_digits())
    }

    /// A copy of the magnitude's digits.
    fn duplicate_digits(&self) -> (r: Vec<u32>)
        ensures
            r@ == self.magnitude@,
    {
        let mut digits: Vec<u32> = Vec::new();
        let mut i: usize = 0;
        while i < self.magnitude.len()
            invariant
                0 <= i <= self.magnitude.len(),
                digits@ == self.magnitude@.subrange(0, i as int),
            decreases self.magnitude.len() - i,
        {
            digits.push(self.magnitude[i]);
            i = i + 1;
        }
        assert(digits@ == self.magnitude@);
        digits
    }

    /// A copy of the value.
    pub fn duplicate(&self) -> (r: BigInteger)
        ensures
            r@ == self@,
    {
        proof {
            use_type_invariant(self);
        }
        let mut digits: Vec<u32> = Vec::new();
        let mut i: usize = 0;
        while i < self.magnitude.len()
            invariant
                0 <= i <= self.magnitude.len(),
                digits@ == self.magnitude@.subrange(0, i as int),
            decreases self.magnitude.len() - i,
        {
            digits.push(self.magnitude[i]);
            i = i + 1;
        }
        assert(digits@ == self.magnitude@);
        BigInteger { negative: self.negative, magnitude: digits }
    }
}

impl Clone for BigInteger {
    fn clone(&self) -> (r: Self)
        ensures
            r@ == self@,
    {
        self.duplicate()
    }
}

/// `BigInt::from(i64)` of num-bigint: the same integer.
#[verifier::external_body]
fn big_from_i64(n: i64) -> (r: BigInteger)
    ensures
        r@ == n as int,
{
    let (sign, magnitude) = BigInt::from(n).to_u32_digits();
    BigInteger { negative: sign == Sign::Minus, magnitude }
}

/// `PartialEq` of num-bigint's `BigInt`: equality of the two values.
#[verifier::external_body]
fn big_eq(a: &BigInteger, b: &BigInteger) -> (r: bool)
    ensures
        r == (a@ == b@),
{
    let x = BigInt::from_slice(if a.negative { Sign::Minus } else { Sign::Plus }, &a.magnitude);
    let y = BigInt::from_slice(if b.negative { Sign::Minus } else { Sign::Plus }, &b.magnitude);
    x == y
}

/// `Add` of num-bigint's `BigInt`: the exact sum.
#[verifier::external_body]
pub fn big_add(a: &BigInteger, b: &BigInteger) -> (r: BigInteger)
    ensures
        r@ == a@ + b@,
{
    let x = BigInt::from_slice(if a.negative { Sign::Minus } else { Sign::Plus }, &a.magnitude);
    let y = BigInt::from_slice(if b.negative { Sign::Minus } else { Sign::Plus }, &b.magnitude);
    let (sign, magnitude) = (x + y).to_u32_digits();
    BigInteger { negative: sign == Sign::Minus, magnitude }
}

/// `Mul` of num-bigint's `BigInt`: the exact product.
#[verifier::external_body]
pub fn big_mul(a: &BigInteger, b: &BigInteger) -> (r: BigInteger)
    ensures
        r@ == a@ * b@,
{
    let x = BigInt::from_slice(if a.negative { Sign::Minus } else { Sign::Plus }, &a.magnitude);
    let y = BigInt::from_slice(if b.negative { Sign::Minus } else { Sign::Plus }, &b.magnitude);
    let (sign, magnitude) = (x * y).to_u32_digits();
    BigInteger { negative: sign == Sign::Minus, magnitude }
}

/// `Integer::gcd` of num-integer on `BigInt`: the non-negative gcd of the
/// absolute values.
#[verifier::external_body]
pub fn big_gcd(a: &BigInteger, b: &BigInteger) -> (r: BigInteger)
    ensures
        r@ == gcd(abs(a@), abs(b@)) as int,
{
    let x = BigInt::from_slice(if a.negative { Sign::Minus } else { Sign::Plus }, &a.magnitude);
    let y = BigInt::from_slice(if b.negative { Sign::Minus } else { Sign::Plus }, &b.magnitude);
    let (sign, magnitude) = x.gcd(&y).to_u32_digits();
    BigInteger { negative: sign == Sign::Minus, magnitude }
}

/// `i128::try_from(&BigInt)` of num-bigint: the value when it fits in `i128`.
#[verifier::external_body]
pub fn big_to_i128(a: &BigInteger) -> (r: Option<i128>)
    ensures
        r is Some <==> (i128::MIN <= a@ <= i128::MAX),
        r matches Some(v) ==> v as int == a@,
{
    let x = BigInt::from_slice(if a.negative { Sign::Minus } else { Sign::Plus }, &a.magnitude);
    i128::try_from(&x).ok()
}

/// `i64::try_from(&BigInt)` of num-bigint: the value when it fits in `i64`.
#[verifier::external_body]
pub fn big_to_i64(a: &BigInteger) -> (r: Option<i64>)
    ensures
        r is Some <==> (i64::MIN <= a@ <= i64::MAX),
        r matches Some(v) ==> v as int == a@,
{
    let x = BigInt::from_slice(if a.negative { Sign::Minus } else { Sign::Plus }, &a.magnitude);
    i64::try_from(&x).ok()
}

/// `BigRational::new` of num-rational: the fraction `n/d` in lowest terms with a
/// positive denominator (it panics on a zero denominator, which `requires` rules
/// out).
#[verifier::external_body]
fn big_ratio(n: &BigInteger, d: &BigInteger) -> (r: (BigInteger, BigInteger))
    requires
        d@ != 0,
    ensures
        r.1@ > 0,
        r.0@ * d@ == n@ * r.1@,
        gcd(abs(r.0@), abs(r.1@)) == 1,
{
    let x = BigInt::from_slice(if n.negative { Sign::Minus } else { Sign::Plus }, &n.magnitude);
    let y = BigInt::from_slice(if d.negative { Sign::Minus } else { Sign::Plus }, &d.magnitude);
    let q = BigRational::new(x, y);
    let (sn, mn) = q.numer().to_u32_digits();
    let (sd, md) = q.denom().to_u32_digits();
    (BigInteger { negative: sn == Sign::Minus, magnitude: mn }, BigInteger { negative: sd == Sign::Minus, magnitude: md })
}

/// A fraction of two big integers in lowest terms, with a positive denominator.
#[derive(Debug, PartialEq, Eq)]
pub struct Rational {
    numer: BigInteger,
    denom: BigInteger,
}

impl Rational {
    #[verifier::type_invariant]
    closed spec fn reduced(self) -> bool {
        &&& self.denom@ > 0
        &&& gcd(abs(self.numer@), abs(self.denom@)) == 1
    }

    /// Numerator of the lowest-terms form.
    pub closed spec fn numer_value(&self) -> int {
        self.numer@
    }

    /// Denominator of the lowest-terms form.
    pub closed spec fn denom_value(&self) -> int {
        self.denom@
    }

    /// The fraction `numer/denom` in lowest terms; `None` for a zero denominator.
    pub fn new(numer: &BigInteger, denom: &BigInteger) -> (r: Option<Rational>)
        ensures
            r is Some <==> denom@ != 0,
            r matches Some(q) ==> q.denom_value() > 0 && q.numer_value() * denom@ == numer@
                * q.denom_value() && gcd(abs(q.numer_value()), abs(q.denom_value())) == 1,
    {
        if denom.is_zero() {
            None
        } else {
            let (n, d) = big_ratio(numer, denom);
            Some(Rational { numer: n, denom: d })
        }
    }

    /// The numerator.
    pub fn numer(&self) -> (r: BigInteger)
        ensures
            r@ == self.numer_value(),
    {
        self.numer.duplicate()
    }

    /// The denominator.
    pub fn denom(&self) -> (r: BigInteger)
        ensures
            r@ == self.denom_value(),
            r@ > 0,
    {
        proof {
            use_type_invariant(self);
        }
        self.denom.duplicate()
    }

    /// Whether the value is below zero.
    pub fn is_negative(&self) -> (r: bool)
        ensures
            r == (self.numer_value() < 0),
    {
        self.numer.is_negative()
    }

    /// Whether the value is zero.
    pub fn is_zero(&self) -> (r: bool)
        ensures
            r == (self.numer_value() == 0),
    {
        self.numer.is_zero()
    }

    /// Whether two fractions are equal (both are in lowest terms).
    pub fn same(&self, other: &Rational) -> (r: bool)
        ensures
            r == (self.numer_value() == other.numer_value() && self.denom_value()
                == other.denom_value()),
    {
        self.numer.same(&other.numer) && self.denom.same(&other.denom)
    }

    /// A copy of the fraction.
    pub fn duplicate(&self) -> (r: Rational)
        ensures
            r.numer_value() == self.numer_value(),
            r.denom_value() == self.denom_value(),
    {
        proof {
            use_type_invariant(self);
        }
        Rational { numer: self.numer.duplicate(), denom: self.denom.duplicate() }
    }
}

impl Clone for Rational {
    fn clone(&self) -> (r: Self)
        ensures
            r.numer_value() == self.numer_value(),
            r.denom_value() == self.denom_value(),
    {
        self.duplicate()
    }
}

} // verus!
