//! Modular arithmetic: the binary extended Euclidean algorithm, modular
//! inverses and Euler's totient of a product of two primes.
use vstd::prelude::*;
use vstd::arithmetic::power::{pow, lemma_pow0, lemma_pow1, lemma_pow_adds, lemma_pow_positive};
use vstd::arithmetic::div_mod::{
    lemma_fundamental_div_mod, lemma_mod_multiples_basic, lemma_div_denominator,
    lemma_mod_multiples_vanish,
};
use crate::natural::{
    Natural, Integer, two_adic, int_add, int_sub, int_half, int_rem, int_lt, nat_lt, nat_sub, shr, shl,
    trailing_zeros, nat_mul, trunc_rem,
};

verus! {

/// `d` divides `x`.
pub open spec fn divides(d: int, x: int) -> bool {
    d != 0 && x % d == 0
}

/// `a` and `m` have no common divisor greater than one.
pub open spec fn coprime(a: int, m: int) -> bool {
    forall|d: int| d > 1 && #[trigger] divides(d, a) ==> !divides(d, m)
}

/// `2^s` divides `n` for every `s` up to the number of trailing zero bits of
/// `n`, and at exactly that many the quotient is odd.
pub proof fn lemma_two_adic(n: nat, s: nat)
    requires
        n > 0,
        s <= two_adic(n),
    ensures
        n % (pow(2, s) as nat) == 0,
        n == (n / (pow(2, s) as nat)) * pow(2, s),
        s == two_adic(n) ==> (n / (pow(2, s) as nat)) % 2 == 1,
    decreases s,
{
    lemma_pow_positive(2, s);
    if s == 0 {
        lemma_pow0(2);
    } else {
        assert(n % 2 == 0);
        lemma_two_adic(n / 2, (s - 1) as nat);
        lemma_pow_adds(2, 1, (s - 1) as nat);
        lemma_pow1(2);
        lemma_pow_positive(2, (s - 1) as nat);
        let p = pow(2, (s - 1) as nat);
        lemma_div_denominator(n as int, 2, p);
        let q = (n / 2) / (p as nat);
        assert(n == q * (2 * p)) by (nonlinear_arith)
            requires
                n == 2 * (n / 2),
                n / 2 == q * p,
        ;
        lemma_mod_multiples_basic(q as int, 2 * p);
    }
    lemma_fundamental_div_mod(n as int, pow(2, s));
}

/// An integer is its sign times its magnitude.
proof fn lemma_sign_times_magnitude(a: Integer)
    ensures
        a@ == (if a.negative {
            -1int
        } else {
            1int
        }) * a.magnitude@,
{
    if a.negative {
        assert(-1int * a.magnitude@ == -(a.magnitude@ as int));
    } else {
        assert(1int * a.magnitude@ == a.magnitude@);
    }
}

/// The parity of a product.
proof fn lemma_mul_parity(c: int, a: int)
    ensures
        (c * a) % 2 == if a % 2 == 0 {
            0
        } else {
            c % 2
        },
{
    let ka = a / 2;
    lemma_fundamental_div_mod(a, 2);
    if a % 2 == 0 {
        assert(c * a == 2 * (c * ka)) by (nonlinear_arith)
            requires
                a == 2 * ka,
        ;
    } else {
        assert(c * a == 2 * (c * ka) + c) by (nonlinear_arith)
            requires
                a == 2 * ka + 1,
        ;
    }
}

/// Halving an even combination `c1 * a + c2 * b` when `a` or `b` is odd:
/// either both coefficients are even, or adding `b` and `-a` makes them so.
proof fn lemma_halve_combination(u: int, c1: int, c2: int, a: int, b: int)
    requires
        u == c1 * a + c2 * b,
        u % 2 == 0,
        a % 2 == 1 || b % 2 == 1,
    ensures
        c1 % 2 == 0 && c2 % 2 == 0 ==> u / 2 == (c1 / 2) * a + (c2 / 2) * b,
        !(c1 % 2 == 0 && c2 % 2 == 0) ==> (c1 + b) % 2 == 0 && (c2 - a) % 2 == 0 && u / 2 == ((
        c1 + b) / 2) * a + ((c2 - a) / 2) * b,
{
    lemma_mul_parity(c1, a);
    lemma_mul_parity(c2, b);
    if c1 % 2 == 0 && c2 % 2 == 0 {
        let k1 = c1 / 2;
        let k2 = c2 / 2;
        lemma_fundamental_div_mod(c1, 2);
        lemma_fundamental_div_mod(c2, 2);
        assert(u == 2 * (k1 * a + k2 * b)) by (nonlinear_arith)
            requires
                u == c1 * a + c2 * b,
                c1 == 2 * k1,
                c2 == 2 * k2,
        ;
    } else {
        let m1 = (c1 + b) / 2;
        let m2 = (c2 - a) / 2;
        assert((c1 + b) % 2 == 0 && (c2 - a) % 2 == 0);
        lemma_fundamental_div_mod(c1 + b, 2);
        lemma_fundamental_div_mod(c2 - a, 2);
        assert(u == 2 * (m1 * a + m2 * b)) by (nonlinear_arith)
            requires
                u == c1 * a + c2 * b,
                c1 + b == 2 * m1,
                c2 - a == 2 * m2,
        ;
    }
}

/// The binary extended Euclidean algorithm: returns `g = gcd(a, b)` and
/// stores in `x` and `y` coefficients with `a * x + b * y == g`. Powers of
/// two common to both are shifted out first; the odd parts are then reduced
/// by halving and subtraction alone.
pub fn binary_extended_gcd(a: &Integer, b: &Integer, x: &mut Integer, y: &mut Integer) -> (r:
    Integer)
    ensures
        r@ >= 0,
        a@ * final(x)@ + b@ * final(y)@ == r@,
        r@ == 0 <==> (a@ == 0 && b@ == 0),
        r@ > 0 ==> a@ % r@ == 0 && b@ % r@ == 0,
{
    let abs_a = a.magnitude.clone();
    let abs_b = b.magnitude.clone();
    let one = Natural::from_u64(1);
    if abs_a.is_zero() {
        let rx = Integer::from_i64(0);
        let ry = Integer { negative: b.negative, magnitude: one };
        proof {
            let sb: int = if b.negative { -1 } else { 1 };
            lemma_sign_times_magnitude(*b);
            assert(a@ * rx@ + b@ * ry@ == abs_b@) by (nonlinear_arith)
                requires
                    rx@ == 0,
                    ry@ == sb,
                    b@ == sb * abs_b@,
                    sb == 1 || sb == -1,
            ;
            if b@ != 0 {
                lemma_mod_multiples_basic(sb, abs_b@ as int);
            }
        }
        *x = rx;
        *y = ry;
        return Integer::from_natural(abs_b);
    }
    if abs_b.is_zero() {
        let rx = Integer { negative: a.negative, magnitude: one };
        let ry = Integer::from_i64(0);
        proof {
            let sa: int = if a.negative { -1 } else { 1 };
            lemma_sign_times_magnitude(*a);
            assert(a@ * rx@ + b@ * ry@ == abs_a@) by (nonlinear_arith)
                requires
                    ry@ == 0,
                    rx@ == sa,
                    a@ == sa * abs_a@,
                    sa == 1 || sa == -1,
            ;
            lemma_mod_multiples_basic(sa, abs_a@ as int);
        }
        *x = rx;
        *y = ry;
        return Integer::from_natural(abs_a);
    }
    let tz_a = trailing_zeros(&abs_a).unwrap();
    let tz_b = trailing_zeros(&abs_b).unwrap();
    let shift = if tz_a < tz_b {
        tz_a
    } else {
        tz_b
    };
    let odd_a = shr(&abs_a, shift);
    let odd_b = shr(&abs_b, shift);
    let ghost ga = odd_a@ as int;
    let ghost gb = odd_b@ as int;
    proof {
        lemma_two_adic(abs_a@, shift as nat);
        lemma_two_adic(abs_b@, shift as nat);
        lemma_pow_positive(2, shift as nat);
        assert(odd_a@ > 0 && odd_b@ > 0) by (nonlinear_arith)
            requires
                abs_a@ == odd_a@ * pow(2, shift as nat),
                abs_b@ == odd_b@ * pow(2, shift as nat),
                abs_a@ > 0,
                abs_b@ > 0,
        ;
    }
    let mut u = odd_a.clone();
    let mut v = odd_b.clone();
    let big_a = Integer::from_natural(odd_a);
    let big_b = Integer::from_natural(odd_b);
    let mut a1 = Integer::from_i64(1);
    let mut b1 = Integer::from_i64(0);
    let mut a2 = Integer::from_i64(0);
    let mut b2 = Integer::from_i64(1);
    // Ghost coefficients writing the odd parts back in terms of `u` and `v`:
    // every common divisor of `u` and `v` divides both odd parts.
    let ghost mut ua: int = 1;
    let ghost mut va: int = 0;
    let ghost mut ub: int = 0;
    let ghost mut vb: int = 1;
    while !u.is_zero()
        invariant
            big_a@ == ga,
            big_b@ == gb,
            ga % 2 == 1 || gb % 2 == 1,
            u@ == a1@ * ga + b1@ * gb,
            v@ == a2@ * ga + b2@ * gb,
            v@ > 0,
            ga == ua * u@ + va * v@,
            gb == ub * u@ + vb * v@,
        decreases u@ + v@,
    {
        let ghost s0 = u@ + v@;
        while u.is_even()
            invariant
                u@ + v@ <= s0,
                big_a@ == ga,
                big_b@ == gb,
                ga % 2 == 1 || gb % 2 == 1,
                u@ == a1@ * ga + b1@ * gb,
                u@ > 0,
                ga == ua * u@ + va * v@,
                gb == ub * u@ + vb * v@,
            decreases u@,
        {
            let ghost old_u = u@ as int;
            proof {
                lemma_halve_combination(old_u, a1@, b1@, ga, gb);
                lemma_pow1(2);
            }
            u = shr(&u, 1);
            if a1.is_even() && b1.is_even() {
                a1 = int_half(&a1);
                b1 = int_half(&b1);
            } else {
                a1 = int_half(&int_add(&a1, &big_b));
                b1 = int_half(&int_sub(&b1, &big_a));
            }
            proof {
                let nu = u@ as int;
                let vv = v@ as int;
                assert(old_u == 2 * nu);
                assert(ga == (2 * ua) * nu + va * vv) by (nonlinear_arith)
                    requires
                        ga == ua * old_u + va * vv,
                        old_u == 2 * nu,
                ;
                assert(gb == (2 * ub) * nu + vb * vv) by (nonlinear_arith)
                    requires
                        gb == ub * old_u + vb * vv,
                        old_u == 2 * nu,
                ;
                ua = 2 * ua;
                ub = 2 * ub;
            }
        }
        while v.is_even()
            invariant
                u@ + v@ <= s0,
                big_a@ == ga,
                big_b@ == gb,
                ga % 2 == 1 || gb % 2 == 1,
                v@ == a2@ * ga + b2@ * gb,
                v@ > 0,
                u@ > 0,
                ga == ua * u@ + va * v@,
                gb == ub * u@ + vb * v@,
            decreases v@,
        {
            let ghost old_v = v@ as int;
            proof {
                lemma_halve_combination(old_v, a2@, b2@, ga, gb);
                lemma_pow1(2);
            }
            v = shr(&v, 1);
            if a2.is_even() && b2.is_even() {
                a2 = int_half(&a2);
                b2 = int_half(&b2);
            } else {
                a2 = int_half(&int_add(&a2, &big_b));
                b2 = int_half(&int_sub(&b2, &big_a));
            }
            proof {
                let nv = v@ as int;
                let uu = u@ as int;
                assert(old_v == 2 * nv);
                assert(ga == ua * uu + (2 * va) * nv) by (nonlinear_arith)
                    requires
                        ga == ua * uu + va * old_v,
                        old_v == 2 * nv,
                ;
                assert(gb == ub * uu + (2 * vb) * nv) by (nonlinear_arith)
                    requires
                        gb == ub * uu + vb * old_v,
                        old_v == 2 * nv,
                ;
                va = 2 * va;
                vb = 2 * vb;
            }
        }
        let ghost uu = u@ as int;
        let ghost vv = v@ as int;
        let ghost oa1 = a1@;
        let ghost ob1 = b1@;
        let ghost oa2 = a2@;
        let ghost ob2 = b2@;
        if !nat_lt(&u, &v) {
            u = nat_sub(&u, &v);
            a1 = int_sub(&a1, &a2);
            b1 = int_sub(&b1, &b2);
            proof {
                assert(u@ == a1@ * ga + b1@ * gb) by (nonlinear_arith)
                    requires
                        uu == oa1 * ga + ob1 * gb,
                        vv == a2@ * ga + b2@ * gb,
                        u@ == uu - vv,
                        a1@ == oa1 - a2@,
                        b1@ == ob1 - b2@,
                ;
                assert(ga == ua * u@ + (va + ua) * vv) by (nonlinear_arith)
                    requires
                        ga == ua * uu + va * vv,
                        u@ == uu - vv,
                ;
                assert(gb == ub * u@ + (vb + ub) * vv) by (nonlinear_arith)
                    requires
                        gb == ub * uu + vb * vv,
                        u@ == uu - vv,
                ;
                va = va + ua;
                vb = vb + ub;
            }
        } else {
            v = nat_sub(&v, &u);
            a2 = int_sub(&a2, &a1);
            b2 = int_sub(&b2, &b1);
            proof {
                assert(v@ == a2@ * ga + b2@ * gb) by (nonlinear_arith)
                    requires
                        vv == oa2 * ga + ob2 * gb,
                        uu == a1@ * ga + b1@ * gb,
                        v@ == vv - uu,
                        a2@ == oa2 - a1@,
                        b2@ == ob2 - b1@,
                ;
                assert(ga == (ua + va) * uu + va * v@) by (nonlinear_arith)
                    requires
                        ga == ua * uu + va * vv,
                        v@ == vv - uu,
                ;
                assert(gb == (ub + vb) * uu + vb * v@) by (nonlinear_arith)
                    requires
                        gb == ub * uu + vb * vv,
                        v@ == vv - uu,
                ;
                ua = ua + va;
                ub = ub + vb;
            }
        }
    }
    let rx = if a.negative {
        a2.negate()
    } else {
        a2.clone()
    };
    let ry = if b.negative {
        b2.negate()
    } else {
        b2.clone()
    };
    let g = shl(&v, shift);
    proof {
        let p = pow(2, shift as nat);
        let gv = v@ as int;
        assert(ga == va * gv);
        assert(gb == vb * gv);
        assert(g@ == gv * p);
        assert(abs_a@ == ga * p);
        assert(abs_b@ == gb * p);
        assert(g@ == a2@ * abs_a@ + b2@ * abs_b@) by (nonlinear_arith)
            requires
                gv == a2@ * ga + b2@ * gb,
                g@ == gv * p,
                abs_a@ == ga * p,
                abs_b@ == gb * p,
        ;
        assert(abs_a@ == va * g@) by (nonlinear_arith)
            requires
                ga == va * gv,
                g@ == gv * p,
                abs_a@ == ga * p,
        ;
        assert(abs_b@ == vb * g@) by (nonlinear_arith)
            requires
                gb == vb * gv,
                g@ == gv * p,
                abs_b@ == gb * p,
        ;
        assert(g@ > 0) by (nonlinear_arith)
            requires
                gv > 0,
                p > 0,
                g@ == gv * p,
        ;
        let sa: int = if a.negative { -1 } else { 1 };
        let sb: int = if b.negative { -1 } else { 1 };
        lemma_sign_times_magnitude(*a);
        lemma_sign_times_magnitude(*b);
        assert(a@ == (sa * va) * g@) by (nonlinear_arith)
            requires
                a@ == sa * abs_a@,
                abs_a@ == va * g@,
        ;
        assert(b@ == (sb * vb) * g@) by (nonlinear_arith)
            requires
                b@ == sb * abs_b@,
                abs_b@ == vb * g@,
        ;
        lemma_mod_multiples_basic(sa * va, g@ as int);
        lemma_mod_multiples_basic(sb * vb, g@ as int);
        assert(a@ * rx@ == a2@ * abs_a@) by (nonlinear_arith)
            requires
                a@ == sa * abs_a@,
                rx@ == sa * a2@,
                sa == 1 || sa == -1,
        ;
        assert(b@ * ry@ == b2@ * abs_b@) by (nonlinear_arith)
            requires
                b@ == sb * abs_b@,
                ry@ == sb * b2@,
                sb == 1 || sb == -1,
        ;
    }
    *x = rx;
    *y = ry;
    Integer::from_natural(g)
}

/// A combination `a * x + m * y` is a multiple of every common divisor.
proof fn lemma_divides_combination(d: int, a: int, m: int, x: int, y: int)
    requires
        divides(d, a),
        divides(d, m),
        d > 0,
    ensures
        (a * x + m * y) % d == 0,
{
    let ka = a / d;
    let km = m / d;
    lemma_fundamental_div_mod(a, d);
    lemma_fundamental_div_mod(m, d);
    assert(a * x + m * y == (ka * x + km * y) * d) by (nonlinear_arith)
        requires
            a == d * ka,
            m == d * km,
    ;
    lemma_mod_multiples_basic(ka * x + km * y, d);
}

/// The modular inverse of `a` modulo `m`: the `x` in `[0, m)` with
/// `a * x % m == 1`, or zero when `a` and `m` share a factor (and when `m`
/// is one, where no such `x` exists). The modulus must be positive: the
/// result range `[0, m)` is empty otherwise.
pub fn mod_inverse(a: Integer, m: Integer) -> (r: Integer)
    requires
        m@ > 0,
    ensures
        m@ > 1 && coprime(a@, m@) ==> 0 < r@ < m@ && (a@ * r@) % m@ == 1,
        !coprime(a@, m@) ==> r@ == 0,
        m@ == 1 ==> r@ == 0,
{
    let mut x = Integer::from_i64(0);
    let mut y = Integer::from_i64(0);
    let g = binary_extended_gcd(&a, &m, &mut x, &mut y);
    let one = Integer::from_i64(1);
    if !(g == one) {
        proof {
            assert(divides(g@, a@));
            assert(divides(g@, m@));
        }
        return Integer::from_i64(0);
    }
    proof {
        assert forall|d: int| d > 1 && #[trigger] divides(d, a@) implies !divides(d, m@) by {
            if divides(d, m@) {
                lemma_divides_combination(d, a@, m@, x@, y@);
                vstd::arithmetic::div_mod::lemma_small_mod(1, d as nat);
            }
        }
    }
    let t = int_rem(&x, &m);
    let sum = int_add(&t, &m);
    let result = if !int_lt(&sum, &m) {
        int_sub(&sum, &m)
    } else {
        sum
    };
    proof {
        let mv = m@;
        let xv = x@;
        // `result` differs from `x` by a multiple of `m`.
        let j: int = if xv >= 0 {
            -(xv / mv)
        } else {
            (-xv) / mv
        };
        lemma_fundamental_div_mod(xv, mv);
        lemma_fundamental_div_mod(-xv, mv);
        assert(t@ == xv + j * mv) by (nonlinear_arith)
            requires
                t@ == trunc_rem(xv, mv),
                mv > 0,
                xv >= 0 ==> xv == mv * (xv / mv) + xv % mv,
                xv < 0 ==> -xv == mv * ((-xv) / mv) + (-xv) % mv,
                j == if xv >= 0 {
                    -(xv / mv)
                } else {
                    (-xv) / mv
                },
        ;
        let k: int = if sum@ >= mv {
            j
        } else {
            j + 1
        };
        assert(result@ == xv + k * mv) by (nonlinear_arith)
            requires
                t@ == xv + j * mv,
                sum@ == t@ + mv,
                sum@ >= mv ==> result@ == sum@ - mv,
                sum@ < mv ==> result@ == sum@,
                k == if sum@ >= mv {
                    j
                } else {
                    j + 1
                },
        ;
        assert(a@ * result@ == mv * (a@ * k - y@) + 1) by (nonlinear_arith)
            requires
                result@ == xv + k * mv,
                a@ * xv + mv * y@ == 1,
        ;
        lemma_mod_multiples_vanish(a@ * k - y@, 1, mv);
        if mv > 1 {
            vstd::arithmetic::div_mod::lemma_small_mod(1, mv as nat);
        }
        if result@ == 0 {
            assert(a@ * result@ == 0) by (nonlinear_arith)
                requires
                    result@ == 0,
            ;
            vstd::arithmetic::div_mod::lemma_small_mod(0, mv as nat);
        }
        assert(0 <= result@ < mv);

    }
    result
}

/// Euler's totient of `p * q` for distinct primes `p` and `q`: `(p - 1)(q - 1)`.
pub fn calculate_totient(p: &Natural, q: &Natural) -> (r: Natural)
    requires
        p@ >= 1,
        q@ >= 1,
    ensures
        r@ == (p@ - 1) * (q@ - 1),
{
    let one = Natural::from_u64(1);
    nat_mul(&nat_sub(p, &one), &nat_sub(q, &one))
}

} // verus!
