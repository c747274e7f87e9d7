//! Arbitrary-precision integers held as plain base-2^32 digit vectors.
//!
//! The arithmetic itself is done by `num_bigint`; each operation below
//! converts its operands to `num_bigint` values, makes one call, and converts
//! the result back.
use vstd::prelude::*;
use vstd::arithmetic::power::pow;
use num_bigint::{BigInt, BigUint, RandBigInt, Sign};

verus! {

/// The value of little-endian base-2^32 digits.
pub open spec fn digits_value(d: Seq<u32>) -> nat
    decreases d.len(),
{
    if d.len() == 0 {
        0
    } else {
        d[0] as nat + 4294967296 * digits_value(d.drop_first())
    }
}

/// A non-negative integer of any size.
#[derive(Debug)]
pub struct Natural {
    digits: Vec<u32>,
}

impl Clone for Natural {
    fn clone(&self) -> (r: Natural)
        ensures
            r@ == self@,
    {
        Natural { digits: self.digits.clone() }
    }
}

impl View for Natural {
    type V = nat;

    closed spec fn view(&self) -> nat {
        digits_value(self.digits@)
    }
}

impl Natural {
    /// The natural number with the value `v`.
    pub fn from_u64(v: u64) -> (r: Natural)
        ensures
            r@ == v as nat,
    {
        let lo = (v % 4294967296) as u32;
        let hi = (v / 4294967296) as u32;
        let mut digits: Vec<u32> = Vec::new();
        if v > 0 {
            digits.push(lo);
        }
        if hi > 0 {
            digits.push(hi);
        }
        proof {
            reveal_with_fuel(digits_value, 3);
            let d = digits@;
            if v > 0 {
                assert(d.drop_first().len() == d.len() - 1);
                if hi > 0 {
                    assert(d.drop_first().drop_first().len() == 0);
                }
            }
        }
        Natural { digits }
    }

    /// The natural number whose big-endian bytes are `bytes`.
    pub fn from_be_bytes(bytes: &[u8]) -> (r: Natural)
        ensures
            r@ == be_value(bytes@),
    {
        from_bytes_be(bytes)
    }

    /// The shortest big-endian bytes of the value (one zero byte for zero).
    pub fn to_be_bytes(&self) -> (r: Vec<u8>)
        ensures
            r@ == be_bytes(self@),
    {
        to_bytes_be(self)
    }

    /// The number of bits needed to write the value (zero for zero).
    pub fn bits(&self) -> (r: u64)
        ensures
            r as nat == bit_length(self@),
    {
        bits(self)
    }

    /// Whether the value is zero.
    pub fn is_zero(&self) -> (r: bool)
        ensures
            r == (self@ == 0),
    {
        let mut i: usize = 0;
        let n = self.digits.len();
        proof {
            vstd::arithmetic::power::lemma_pow0(4294967296);
            assert(self.digits@.subrange(0, n as int) =~= self.digits@);
        }
        while i < n
            invariant
                0 <= i <= n,
                n == self.digits@.len(),
                forall|j: int| 0 <= j < i ==> self.digits@[j] == 0,
                digits_value(self.digits@) == pow(4294967296, i as nat) * digits_value(
                    self.digits@.subrange(i as int, n as int),
                ),
            decreases n - i,
        {
            if self.digits[i] != 0 {
                proof {
                    lemma_digits_value_positive(self.digits@.subrange(i as int, n as int));
                    vstd::arithmetic::power::lemma_pow_positive(4294967296, i as nat);
                    vstd::arithmetic::mul::lemma_mul_strictly_positive(
                        pow(4294967296, i as nat),
                        digits_value(self.digits@.subrange(i as int, n as int)) as int,
                    );
                }
                return false;
            }
            proof {
                let s = self.digits@.subrange(i as int, n as int);
                assert(s.drop_first() =~= self.digits@.subrange(i + 1, n as int));
                vstd::arithmetic::power::lemma_pow_adds(4294967296, i as nat, 1);
                vstd::arithmetic::power::lemma_pow1(4294967296);
                vstd::arithmetic::mul::lemma_mul_is_associative(
                    pow(4294967296, i as nat),
                    4294967296,
                    digits_value(s.drop_first()) as int,
                );
            }
            i = i + 1;
        }
        proof {
            assert(self.digits@.subrange(n as int, n as int).len() == 0);
            assert(digits_value(self.digits@.subrange(n as int, n as int)) == 0);
            vstd::arithmetic::mul::lemma_mul_basics(pow(4294967296, n as nat));
        }
        true
    }

    /// Whether the value is even.
    pub fn is_even(&self) -> (r: bool)
        ensures
            r == (self@ % 2 == 0),
    {
        if self.digits.len() == 0 {
            true
        } else {
            proof {
                let d = self.digits@;
                let rest = digits_value(d.drop_first());
                assert((d[0] as nat + 4294967296 * rest) % 2 == (d[0] as nat) % 2)
                    by (nonlinear_arith);
            }
            self.digits[0] % 2 == 0
        }
    }
}

/// The value of a big-endian byte string.
pub open spec fn be_value(b: Seq<u8>) -> nat
    decreases b.len(),
{
    if b.len() == 0 {
        0
    } else {
        be_value(b.drop_last()) * 256 + b.last() as nat
    }
}

/// The shortest big-endian byte string of `v`: one zero byte for zero.
pub open spec fn be_bytes(v: nat) -> Seq<u8>
    decreases v,
{
    if v < 256 {
        seq![v as u8]
    } else {
        be_bytes(v / 256).push((v % 256) as u8)
    }
}

/// The number of bits needed to write `v`: zero for zero.
pub open spec fn bit_length(v: nat) -> nat
    decreases v,
{
    if v == 0 {
        0
    } else {
        1 + bit_length(v / 2)
    }
}

/// The exponent of the largest power of two dividing `v` (zero for zero).
pub open spec fn two_adic(v: nat) -> nat
    decreases v,
{
    if v == 0 || v % 2 == 1 {
        0
    } else {
        1 + two_adic(v / 2)
    }
}

/// Relies on `BigUint::new` and `BigUint::to_u32_digits` (exact conversions
/// between little-endian base-2^32 digits and values) and on `Add`.
#[verifier::external_body]
pub(crate) fn nat_add(a: &Natural, b: &Natural) -> (r: Natural)
    ensures
        r@ == a@ + b@,
{
    let x = BigUint::new(a.digits.clone()) + BigUint::new(b.digits.clone());
    Natural { digits: x.to_u32_digits() }
}

/// Relies on `Sub` for `BigUint`, which panics when `b > a`.
#[verifier::external_body]
pub(crate) fn nat_sub(a: &Natural, b: &Natural) -> (r: Natural)
    requires
        b@ <= a@,
    ensures
        r@ == a@ - b@,
{
    let x = BigUint::new(a.digits.clone()) - BigUint::new(b.digits.clone());
    Natural { digits: x.to_u32_digits() }
}

/// Relies on `Mul` for `BigUint`.
#[verifier::external_body]
pub(crate) fn nat_mul(a: &Natural, b: &Natural) -> (r: Natural)
    ensures
        r@ == a@ * b@,
{
    let x = BigUint::new(a.digits.clone()) * BigUint::new(b.digits.clone());
    Natural { digits: x.to_u32_digits() }
}

/// Relies on `Rem` for `BigUint`, which panics on a zero divisor.
#[verifier::external_body]
pub(crate) fn nat_rem(a: &Natural, b: &Natural) -> (r: Natural)
    requires
        b@ > 0,
    ensures
        r@ == a@ % b@,
{
    let x = BigUint::new(a.digits.clone()) % BigUint::new(b.digits.clone());
    Natural { digits: x.to_u32_digits() }
}

/// Relies on `BigUint::modpow`: `(base ^ exp) % m`, panicking when `m` is zero.
#[verifier::external_body]
pub(crate) fn modpow(base: &Natural, exp: &Natural, m: &Natural) -> (r: Natural)
    requires
        m@ > 0,
    ensures
        r@ == pow(base@ as int, exp@) % (m@ as int),
{
    let x = BigUint::new(base.digits.clone()).modpow(
        &BigUint::new(exp.digits.clone()),
        &BigUint::new(m.digits.clone()),
    );
    Natural { digits: x.to_u32_digits() }
}

/// Relies on `PartialOrd::lt` for `BigUint`, which orders by value.
#[verifier::external_body]
pub(crate) fn nat_lt(a: &Natural, b: &Natural) -> (r: bool)
    ensures
        r == (a@ < b@),
{
    BigUint::new(a.digits.clone()) < BigUint::new(b.digits.clone())
}

/// Relies on `PartialEq::eq` for `BigUint`, which compares values.
#[verifier::external_body]
pub(crate) fn nat_eq(a: &Natural, b: &Natural) -> (r: bool)
    ensures
        r == (a@ == b@),
{
    BigUint::new(a.digits.clone()) == BigUint::new(b.digits.clone())
}

/// Relies on `BigUint::bits`: the fewest bits that express the value.
#[verifier::external_body]
pub(crate) fn bits(a: &Natural) -> (r: u64)
    ensures
        r as nat == bit_length(a@),
{
    BigUint::new(a.digits.clone()).bits()
}

/// Relies on `BigUint::trailing_zeros`: the number of low zero bits, or
/// `None` for zero.
#[verifier::external_body]
pub(crate) fn trailing_zeros(a: &Natural) -> (r: Option<u64>)
    ensures
        r.is_none() == (a@ == 0),
        r.is_some() ==> r.unwrap() as nat == two_adic(a@),
{
    BigUint::new(a.digits.clone()).trailing_zeros()
}

/// Relies on `Shr<u64>` for `BigUint`: division by `2^k`, rounding down.
#[verifier::external_body]
pub(crate) fn shr(a: &Natural, k: u64) -> (r: Natural)
    ensures
        r@ == a@ / pow(2, k as nat) as nat,
{
    let x = BigUint::new(a.digits.clone()) >> k;
    Natural { digits: x.to_u32_digits() }
}

/// Relies on `Shl<u64>` for `BigUint`: multiplication by `2^k`.
#[verifier::external_body]
pub(crate) fn shl(a: &Natural, k: u64) -> (r: Natural)
    ensures
        r@ == a@ * pow(2, k as nat) as nat,
{
    let x = BigUint::new(a.digits.clone()) << k;
    Natural { digits: x.to_u32_digits() }
}

/// Relies on `BigUint::from_bytes_be`: the big-endian value of the bytes.
#[verifier::external_body]
pub(crate) fn from_bytes_be(b: &[u8]) -> (r: Natural)
    ensures
        r@ == be_value(b@),
{
    Natural { digits: BigUint::from_bytes_be(b).to_u32_digits() }
}

/// Relies on `BigUint::to_bytes_be`: the big-endian bytes without leading
/// zeros, and `[0]` for zero.
#[verifier::external_body]
pub(crate) fn to_bytes_be(a: &Natural) -> (r: Vec<u8>)
    ensures
        r@ == be_bytes(a@),
{
    BigUint::new(a.digits.clone()).to_bytes_be()
}

/// Relies on `RandBigInt::gen_biguint` over `rand::thread_rng`: a random
/// value below `2^bits`.
#[verifier::external_body]
pub(crate) fn random_bits(bits: u64) -> (r: Natural)
    ensures
        r@ < pow(2, bits as nat),
{
    let mut rng = rand::thread_rng();
    Natural { digits: rng.gen_biguint(bits).to_u32_digits() }
}

impl PartialEq for Natural {
    fn eq(&self, other: &Natural) -> (r: bool) {
        nat_eq(self, other)
    }
}

impl vstd::std_specs::cmp::PartialEqSpecImpl for Natural {
    open spec fn obeys_eq_spec() -> bool {
        true
    }

    open spec fn eq_spec(&self, other: &Natural) -> bool {
        self@ == other@
    }
}

impl Eq for Natural {
}

/// A signed integer of any size: a sign and a magnitude.
#[derive(Debug)]
pub struct Integer {
    pub negative: bool,
    pub magnitude: Natural,
}

impl Clone for Integer {
    fn clone(&self) -> (r: Integer)
        ensures
            r@ == self@,
    {
        Integer { negative: self.negative, magnitude: self.magnitude.clone() }
    }
}

impl View for Integer {
    type V = int;

    open spec fn view(&self) -> int {
        if self.negative {
            -(self.magnitude@ as int)
        } else {
            self.magnitude@ as int
        }
    }
}

impl Integer {
    /// The integer with the value of `n`.
    pub fn from_natural(n: Natural) -> (r: Integer)
        ensures
            r@ == n@ as int,
    {
        Integer { negative: false, magnitude: n }
    }

    /// The integer with the value `v`.
    pub fn from_i64(v: i64) -> (r: Integer)
        ensures
            r@ == v as int,
    {
        if v < 0 {
            let m = (0i128 - v as i128) as u64;
            Integer { negative: true, magnitude: Natural::from_u64(m) }
        } else {
            Integer { negative: false, magnitude: Natural::from_u64(v as u64) }
        }
    }

    /// The integer with the value `-self`.
    pub fn negate(&self) -> (r: Integer)
        ensures
            r@ == -self@,
    {
        Integer { negative: !self.negative, magnitude: self.magnitude.clone() }
    }

    /// Whether the value is zero.
    pub fn is_zero(&self) -> (r: bool)
        ensures
            r == (self@ == 0),
    {
        self.magnitude.is_zero()
    }

    /// Whether the value is even.
    pub fn is_even(&self) -> (r: bool)
        ensures
            r == (self@ % 2 == 0),
    {
        self.magnitude.is_even()
    }
}

impl PartialEq for Integer {
    fn eq(&self, other: &Integer) -> (r: bool) {
        let d = int_sub(self, other);
        d.is_zero()
    }
}

impl vstd::std_specs::cmp::PartialEqSpecImpl for Integer {
    open spec fn obeys_eq_spec() -> bool {
        true
    }

    open spec fn eq_spec(&self, other: &Integer) -> bool {
        self@ == other@
    }
}

impl Eq for Integer {
}

/// The remainder of `a` by `b` rounded toward zero: it has the sign of `a`.
pub open spec fn trunc_rem(a: int, b: int) -> int {
    let m = if b < 0 { -b } else { b };
    if a >= 0 {
        a % m
    } else {
        -((-a) % m)
    }
}

/// Relies on `BigInt::from_biguint` and `BigInt::to_u32_digits`
/// (exact conversions between sign and magnitude and values) and on `Add`.
#[verifier::external_body]
pub(crate) fn int_add(a: &Integer, b: &Integer) -> (r: Integer)
    ensures
        r@ == a@ + b@,
{
    let sa = if a.negative { Sign::Minus } else { Sign::Plus };
    let sb = if b.negative { Sign::Minus } else { Sign::Plus };
    let x = BigInt::from_biguint(sa, BigUint::new(a.magnitude.digits.clone()))
        + BigInt::from_biguint(sb, BigUint::new(b.magnitude.digits.clone()));
    let (s, d) = x.to_u32_digits();
    Integer { negative: s == Sign::Minus, magnitude: Natural { digits: d } }
}

/// Relies on `Sub` for `BigInt`.
#[verifier::external_body]
pub(crate) fn int_sub(a: &Integer, b: &Integer) -> (r: Integer)
    ensures
        r@ == a@ - b@,
{
    let sa = if a.negative { Sign::Minus } else { Sign::Plus };
    let sb = if b.negative { Sign::Minus } else { Sign::Plus };
    let x = BigInt::from_biguint(sa, BigUint::new(a.magnitude.digits.clone()))
        - BigInt::from_biguint(sb, BigUint::new(b.magnitude.digits.clone()));
    let (s, d) = x.to_u32_digits();
    Integer { negative: s == Sign::Minus, magnitude: Natural { digits: d } }
}

/// Relies on `Shr<u64>` for `BigInt`, which rounds toward negative infinity.
#[verifier::external_body]
pub(crate) fn int_half(a: &Integer) -> (r: Integer)
    ensures
        r@ == a@ / 2,
{
    let sa = if a.negative { Sign::Minus } else { Sign::Plus };
    let x = BigInt::from_biguint(sa, BigUint::new(a.magnitude.digits.clone())) >> 1u64;
    let (s, d) = x.to_u32_digits();
    Integer { negative: s == Sign::Minus, magnitude: Natural { digits: d } }
}

/// Relies on `Rem` for `BigInt`, which truncates toward zero and panics on a
/// zero divisor.
#[verifier::external_body]
pub(crate) fn int_rem(a: &Integer, b: &Integer) -> (r: Integer)
    requires
        b@ != 0,
    ensures
        r@ == trunc_rem(a@, b@),
{
    let sa = if a.negative { Sign::Minus } else { Sign::Plus };
    let sb = if b.negative { Sign::Minus } else { Sign::Plus };
    let x = BigInt::from_biguint(sa, BigUint::new(a.magnitude.digits.clone()))
        % BigInt::from_biguint(sb, BigUint::new(b.magnitude.digits.clone()));
    let (s, d) = x.to_u32_digits();
    Integer { negative: s == Sign::Minus, magnitude: Natural { digits: d } }
}

/// Relies on `PartialOrd::lt` for `BigInt`, which orders by value.
#[verifier::external_body]
pub(crate) fn int_lt(a: &Integer, b: &Integer) -> (r: bool)
    ensures
        r == (a@ < b@),
{
    let sa = if a.negative { Sign::Minus } else { Sign::Plus };
    let sb = if b.negative { Sign::Minus } else { Sign::Plus };
    BigInt::from_biguint(sa, BigUint::new(a.magnitude.digits.clone()))
        < BigInt::from_biguint(sb, BigUint::new(b.magnitude.digits.clone()))
}

/// A big-endian value is below `256` to the number of bytes, and below its
/// first byte plus one times `256` to the number of the other bytes.
pub proof fn lemma_be_value_bound(b: Seq<u8>)
    ensures
        be_value(b) < pow(256, b.len()),
        b.len() >= 1 ==> be_value(b) < (b[0] + 1) * pow(256, (b.len() - 1) as nat),
    decreases b.len(),
{
    vstd::arithmetic::power::lemma_pow0(256);
    if b.len() > 0 {
        let rest = b.drop_last();
        lemma_be_value_bound(rest);
        vstd::arithmetic::power::lemma_pow_adds(256, rest.len(), 1);
        vstd::arithmetic::power::lemma_pow1(256);
        let p = pow(256, rest.len());
        let v = be_value(rest);
        assert(be_value(b) < p * 256) by (nonlinear_arith)
            requires
                be_value(b) == v * 256 + b.last() as nat,
                v < p,
                b.last() < 256,
        ;
        if b.len() >= 2 {
            vstd::arithmetic::power::lemma_pow_adds(256, (rest.len() - 1) as nat, 1);
            let q = pow(256, (rest.len() - 1) as nat);
            let f = b[0] + 1;
            assert(rest[0] == b[0]);
            assert(be_value(b) < f * (q * 256)) by (nonlinear_arith)
                requires
                    be_value(b) == v * 256 + b.last() as nat,
                    v < f * q,
                    b.last() < 256,
            ;
            assert((rest.len() - 1) as nat + 1 == (b.len() - 1) as nat);
            assert(f * (q * 256) == f * pow(256, (b.len() - 1) as nat));
        } else {
            assert(rest.len() == 0);
            assert(be_value(b) == b[0]);
            assert((b[0] + 1) * pow(256, 0) == b[0] + 1) by (nonlinear_arith)
                requires
                    pow(256, 0) == 1,
            ;
        }
    }
}

/// Bytes that do not start with zero come back from their big-endian value
/// unchanged.
pub proof fn lemma_be_round_trip(b: Seq<u8>)
    requires
        b.len() >= 1,
        b[0] != 0,
    ensures
        be_value(b) >= 1,
        b.len() >= 2 ==> be_value(b) >= 256,
        be_bytes(be_value(b)) == b,
    decreases b.len(),
{
    let rest = b.drop_last();
    let v = be_value(b);
    if b.len() == 1 {
        assert(rest.len() == 0);
        assert(v == b[0]);
        assert(be_bytes(v) =~= b);
    } else {
        assert(rest[0] == b[0]);
        lemma_be_round_trip(rest);
        let r = be_value(rest);
        assert(v == r * 256 + b.last());
        vstd::arithmetic::div_mod::lemma_fundamental_div_mod_converse(
            v as int,
            256,
            r as int,
            b.last() as int,
        );
        assert(v / 256 == r);
        assert(v % 256 == b.last());
        assert(be_bytes(v) == be_bytes(r).push((v % 256) as u8));
        assert(be_bytes(v) =~= b);
    }
}

/// Zero bytes have value zero.
pub proof fn lemma_be_value_zero(b: Seq<u8>)
    requires
        forall|i: int| 0 <= i < b.len() ==> b[i] == 0,
    ensures
        be_value(b) == 0,
    decreases b.len(),
{
    if b.len() > 0 {
        lemma_be_value_zero(b.drop_last());
    }
}

proof fn lemma_digits_value_positive(d: Seq<u32>)
    requires
        d.len() > 0,
        d[0] != 0,
    ensures
        digits_value(d) > 0,
{
}

} // verus!
