//! Why textbook RSA decrypts: Euclid's lemma, Fermat's little theorem, and
//! their consequence for a modulus that is the product of two primes.
use vstd::prelude::*;
use vstd::arithmetic::power::pow;
use vstd::arithmetic::div_mod::{
    lemma_fundamental_div_mod, lemma_mod_multiples_basic, lemma_small_mod,
};
use crate::primality::is_prime;

verus! {

/// Euclid's greatest common divisor.
pub open spec fn gcd(a: nat, b: nat) -> nat
    decreases b,
{
    if b == 0 {
        a
    } else {
        gcd(b, a % b)
    }
}

/// Bézout coefficients `(x, y)` with `a * x + b * y == gcd(a, b)`.
pub open spec fn bezout(a: nat, b: nat) -> (int, int)
    decreases b,
{
    if b == 0 {
        (1, 0)
    } else {
        let (x, y) = bezout(b, a % b);
        (y, x - (a / b) as int * y)
    }
}

/// The Bézout identity, and that the greatest common divisor divides both
/// numbers.
proof fn lemma_bezout(a: nat, b: nat)
    ensures
        a * bezout(a, b).0 + b * bezout(a, b).1 == gcd(a, b),
        a > 0 || b > 0 ==> gcd(a, b) > 0 && a % gcd(a, b) == 0 && b % gcd(a, b) == 0,
    decreases b,
{
    if b == 0 {
        if a > 0 {
            vstd::arithmetic::div_mod::lemma_mod_self_0(a as int);
        }
    } else {
        let r = a % b;
        let k = a / b;
        lemma_bezout(b, r);
        lemma_fundamental_div_mod(a as int, b as int);
        let (x, y) = bezout(b, r);
        let g = gcd(b, r);
        assert(a * y + b * (x - k * y) == g) by (nonlinear_arith)
            requires
                b * x + r * y == g,
                a == b * k + r,
        ;
        let gi = g as int;
        let gb = b as int / gi;
        let gr = r as int / gi;
        let ki = k as int;
        lemma_fundamental_div_mod(b as int, gi);
        lemma_fundamental_div_mod(r as int, gi);
        assert(a as int == (ki * gb + gr) * gi) by (nonlinear_arith)
            requires
                a == b * k + r,
                ki == k,
                b as int == gi * gb,
                r as int == gi * gr,
        ;
        lemma_mod_multiples_basic(ki * gb + gr, gi);
    }
}

/// Euclid's lemma: a prime dividing a product divides one of the factors.
pub proof fn lemma_euclid(p: nat, a: int, b: int)
    requires
        is_prime(p),
        (a * b) % (p as int) == 0,
        a % (p as int) != 0,
    ensures
        b % (p as int) == 0,
{
    let pi = p as int;
    let ar = (a % pi) as nat;
    lemma_bezout(p, ar);
    let g = gcd(p, ar);
    let (x, y) = bezout(p, ar);
    // `g` divides `ar < p`, so it is below `p`, and divides the prime `p`.
    let ai = ar as int;
    let gi = g as int;
    lemma_fundamental_div_mod(ai, gi);
    assert(gi <= ai) by (nonlinear_arith)
        requires
            ai == gi * (ai / gi) + ai % gi,
            ai % gi == 0,
            ai > 0,
            gi > 0,
    ;
    if g >= 2 {
        assert(p % g != 0);
    }
    assert(g == 1);
    vstd::arithmetic::div_mod::lemma_mul_mod_noop_left(a, b, pi);
    let k = (ai * b) / pi;
    lemma_fundamental_div_mod(ai * b, pi);
    assert(b == (b * x + k * y) * pi) by (nonlinear_arith)
        requires
            pi * x + ai * y == 1,
            ai * b == pi * k + (ai * b) % pi,
            (ai * b) % pi == 0,
    ;
    lemma_mod_multiples_basic(b * x + k * y, pi);
}

/// The binomial coefficient "n choose k", by Pascal's rule.
pub open spec fn binom(n: nat, k: nat) -> nat
    decreases n,
{
    if k == 0 {
        1
    } else if n == 0 {
        0
    } else {
        binom((n - 1) as nat, (k - 1) as nat) + binom((n - 1) as nat, k)
    }
}

/// Choosing more than there is gives zero; choosing all gives one.
proof fn lemma_binom_edges(n: nat, k: nat)
    ensures
        k > n ==> binom(n, k) == 0,
        binom(n, n) == 1,
    decreases n,
{
    if n > 0 {
        lemma_binom_edges((n - 1) as nat, (k - 1) as nat);
        lemma_binom_edges((n - 1) as nat, k);
        lemma_binom_edges((n - 1) as nat, n);
    }
}

/// The absorption identity `k * C(n, k) == n * C(n - 1, k - 1)`.
proof fn lemma_binom_absorb(n: nat, k: nat)
    requires
        n >= 1,
        k >= 1,
    ensures
        k * binom(n, k) == n * binom((n - 1) as nat, (k - 1) as nat),
    decreases n,
{
    let n1 = (n - 1) as nat;
    let k1 = (k - 1) as nat;
    if n == 1 {
        if k >= 2 {
            assert(binom(0, k1) == 0);
            assert(binom(1, k) == 0);
            assert(k * binom(n, k) == n * binom(n1, k1)) by (nonlinear_arith)
                requires
                    binom(n, k) == 0,
                    binom(n1, k1) == 0,
            ;
        } else {
            assert(binom(1, 1) == 1);
            assert(binom(0, 0) == 1);
        }
    } else if k == 1 {
        lemma_binom_absorb(n1, 1);
        assert(binom(n, 1) == 1 + binom(n1, 1));
        assert(binom(n1, 0) == 1);
        assert(1 * binom(n1, 1) == n1 * binom((n1 - 1) as nat, 0));
        assert(binom((n1 - 1) as nat, 0) == 1);
        assert(binom(n1, 1) == n1) by (nonlinear_arith)
            requires
                1 * binom(n1, 1) == n1 * binom((n1 - 1) as nat, 0),
                binom((n1 - 1) as nat, 0) == 1,
        ;
        assert(k * binom(n, k) == n * binom(n1, k1)) by (nonlinear_arith)
            requires
                k == 1,
                k1 == 0,
                binom(n, 1) == 1 + binom(n1, 1),
                binom(n1, 1) == n1,
                binom(n1, 0) == 1,
                n1 == n - 1,
        ;
    } else {
        let n2 = (n - 2) as nat;
        let k2 = (k - 2) as nat;
        lemma_binom_absorb(n1, k1);
        lemma_binom_absorb(n1, k);
        assert(binom(n, k) == binom(n1, k1) + binom(n1, k));
        assert(binom(n1, k1) == binom(n2, k2) + binom(n2, k1));
        assert(k * binom(n, k) == n * binom(n1, k1)) by (nonlinear_arith)
            requires
                binom(n, k) == binom(n1, k1) + binom(n1, k),
                binom(n1, k1) == binom(n2, k2) + binom(n2, k1),
                k1 * binom(n1, k1) == n1 * binom(n2, k2),
                k * binom(n1, k) == n1 * binom(n2, k1),
                k1 == k - 1,
                n1 == n - 1,
        ;
    }
}

/// A prime divides every binomial coefficient of it but the two ends.
proof fn lemma_prime_divides_binom(p: nat, k: nat)
    requires
        is_prime(p),
        0 < k < p,
    ensures
        binom(p, k) % p == 0,
{
    lemma_binom_absorb(p, k);
    let c = binom((p - 1) as nat, (k - 1) as nat);
    lemma_mod_multiples_basic(c as int, p as int);
    assert((k as int * binom(p, k) as int) % (p as int) == 0) by {
        assert(k * binom(p, k) == c * p) by (nonlinear_arith)
            requires
                k * binom(p, k) == p * c,
        ;
    }
    lemma_small_mod(k, p);
    lemma_euclid(p, k as int, binom(p, k) as int);
}

/// `C(n, 0) + C(n, 1) a + ... + C(n, m - 1) a^(m - 1)`.
pub open spec fn binom_sum(n: nat, a: int, m: nat) -> int
    decreases m,
{
    if m == 0 {
        0
    } else {
        binom_sum(n, a, (m - 1) as nat) + binom(n, (m - 1) as nat) * pow(a, (m - 1) as nat)
    }
}

/// Pascal's rule summed: the partial sums for `n` split into those for
/// `n - 1`, one of them shifted up by a factor `a`.
proof fn lemma_binom_sum_pascal(n: nat, a: int, m: nat)
    requires
        n >= 1,
        m >= 1,
    ensures
        binom_sum(n, a, m) == binom_sum((n - 1) as nat, a, m) + a * binom_sum(
            (n - 1) as nat,
            a,
            (m - 1) as nat,
        ),
    decreases m,
{
    let n1 = (n - 1) as nat;
    vstd::arithmetic::power::lemma_pow0(a);
    if m == 1 {
        assert(binom_sum(n, a, 0) == 0);
        assert(binom_sum(n, a, 1) == binom(n, 0) * pow(a, 0));
        assert(binom_sum(n1, a, 0) == 0);
        assert(binom_sum(n1, a, 1) == binom(n1, 0) * pow(a, 0));
        assert(binom_sum(n1, a, 0) == 0);
        assert(a * 0 == 0);
    } else {
        let m1 = (m - 1) as nat;
        let m2 = (m - 2) as nat;
        lemma_binom_sum_pascal(n, a, m1);
        vstd::arithmetic::power::lemma_pow_adds(a, m2, 1);
        vstd::arithmetic::power::lemma_pow1(a);
        let pw = pow(a, m1);
        let pw2 = pow(a, m2);
        assert(pw == pw2 * a);
        let s1 = binom_sum(n1, a, m1);
        let s2 = binom_sum(n1, a, m2);
        assert(binom(n, m1) == binom(n1, m2) + binom(n1, m1));
        assert(binom_sum(n, a, m) == binom_sum(n, a, m1) + binom(n, m1) * pw);
        assert(binom_sum(n1, a, m) == s1 + binom(n1, m1) * pw);
        assert(s1 == s2 + binom(n1, m2) * pw2);
        assert(binom_sum(n, a, m) == binom_sum(n1, a, m) + a * s1) by (nonlinear_arith)
            requires
                binom_sum(n, a, m) == binom_sum(n, a, m1) + binom(n, m1) * pw,
                binom_sum(n, a, m1) == s1 + a * s2,
                binom(n, m1) == binom(n1, m2) + binom(n1, m1),
                pw == pw2 * a,
                binom_sum(n1, a, m) == s1 + binom(n1, m1) * pw,
                s1 == s2 + binom(n1, m2) * pw2,
        ;
    }
}

/// The binomial theorem for `(a + 1)^n`.
proof fn lemma_binomial_theorem(n: nat, a: int)
    ensures
        pow(a + 1, n) == binom_sum(n, a, n + 1),
    decreases n,
{
    vstd::arithmetic::power::lemma_pow0(a);
    vstd::arithmetic::power::lemma_pow0(a + 1);
    if n == 0 {
        assert(binom_sum(0, a, 0) == 0);
        assert(binom_sum(0, a, 1) == binom(0, 0) * pow(a, 0));
    } else {
        let n1 = (n - 1) as nat;
        lemma_binomial_theorem(n1, a);
        lemma_binom_sum_pascal(n, a, n + 1);
        lemma_binom_edges(n1, n);
        let t = binom_sum(n1, a, n);
        assert(binom_sum(n1, a, n + 1) == t + binom(n1, n) * pow(a, n));
        assert(binom(n1, n) * pow(a, n) == 0) by (nonlinear_arith)
            requires
                binom(n1, n) == 0,
        ;
        vstd::arithmetic::power::lemma_pow_adds(a + 1, n1, 1);
        vstd::arithmetic::power::lemma_pow1(a + 1);
        assert(pow(a + 1, n) == pow(a + 1, n1) * (a + 1));
        assert(pow(a + 1, n) == t + a * t) by (nonlinear_arith)
            requires
                pow(a + 1, n) == pow(a + 1, n1) * (a + 1),
                pow(a + 1, n1) == t,
        ;
    }
}

/// All middle terms of `(a + 1)^p` are multiples of the prime `p`.
proof fn lemma_binom_sum_mod_prime(p: nat, a: int, m: nat)
    requires
        is_prime(p),
        1 <= m <= p,
    ensures
        (binom_sum(p, a, m) - 1) % (p as int) == 0,
    decreases m,
{
    let pi = p as int;
    vstd::arithmetic::power::lemma_pow0(a);
    if m == 1 {
        assert(binom_sum(p, a, 0) == 0);
        assert(binom_sum(p, a, 1) == binom(p, 0) * pow(a, 0));
        vstd::arithmetic::div_mod::lemma_mod_self_0(pi);
        lemma_small_mod(0, p);
    } else {
        let m1 = (m - 1) as nat;
        lemma_binom_sum_mod_prime(p, a, m1);
        lemma_prime_divides_binom(p, m1);
        let c = binom(p, m1) as int;
        let w = pow(a, m1);
        let k1 = (binom_sum(p, a, m1) - 1) / pi;
        let k2 = c / pi;
        lemma_fundamental_div_mod(binom_sum(p, a, m1) - 1, pi);
        lemma_fundamental_div_mod(c, pi);
        assert(binom_sum(p, a, m) - 1 == (k1 + k2 * w) * pi) by (nonlinear_arith)
            requires
                binom_sum(p, a, m) == binom_sum(p, a, m1) + c * w,
                binom_sum(p, a, m1) - 1 == pi * k1,
                c == pi * k2,
        ;
        lemma_mod_multiples_basic(k1 + k2 * w, pi);
    }
}

/// Fermat's little theorem in the form `a^p = a (mod p)`.
proof fn lemma_pow_prime_mod(a: nat, p: nat)
    requires
        is_prime(p),
    ensures
        pow(a as int, p) % (p as int) == (a as int) % (p as int),
    decreases a,
{
    let pi = p as int;
    if a == 0 {
        vstd::arithmetic::power::lemma0_pow(p);
    } else {
        let b = (a - 1) as nat;
        lemma_pow_prime_mod(b, p);
        lemma_binomial_theorem(p, b as int);
        lemma_binom_sum_mod_prime(p, b as int, p);
        lemma_binom_edges(p, p);
        let total = binom_sum(p, b as int, p + 1);
        let inner = binom_sum(p, b as int, p);
        assert(total == inner + binom(p, p) * pow(b as int, p));
        assert(total == inner + pow(b as int, p));
        let k = (inner - 1) / pi;
        lemma_fundamental_div_mod(inner - 1, pi);
        // `(b + 1)^p = b^p + 1 + k p`.
        assert(pow(a as int, p) == pow(b as int, p) + 1 + k * pi);
        vstd::arithmetic::div_mod::lemma_mod_multiples_vanish(k, pow(b as int, p) + 1, pi);
        assert(pow(a as int, p) == pi * k + (pow(b as int, p) + 1)) by (nonlinear_arith)
            requires
                pow(a as int, p) == pow(b as int, p) + 1 + k * pi,
        ;
        vstd::arithmetic::div_mod::lemma_add_mod_noop(pow(b as int, p), 1, pi);
        vstd::arithmetic::div_mod::lemma_add_mod_noop(b as int, 1, pi);
    }
}

/// Fermat's little theorem: `a^(p - 1) = 1 (mod p)` when the prime `p` does
/// not divide `a`.
pub proof fn lemma_fermat(a: nat, p: nat)
    requires
        is_prime(p),
        a % p != 0,
    ensures
        pow(a as int, (p - 1) as nat) % (p as int) == 1,
{
    let pi = p as int;
    let ai = a as int;
    let w = pow(ai, (p - 1) as nat);
    lemma_pow_prime_mod(a, p);
    vstd::arithmetic::power::lemma_pow_adds(ai, 1, (p - 1) as nat);
    vstd::arithmetic::power::lemma_pow1(ai);
    assert(pow(ai, p) == ai * w);
    vstd::arithmetic::div_mod::lemma_sub_mod_noop(ai * w, ai, pi);
    vstd::arithmetic::div_mod::lemma_mod_self_0(pi);
    assert((ai * w - ai) % pi == 0) by {
        lemma_small_mod(0, p);
    }
    assert(ai * (w - 1) == ai * w - ai) by (nonlinear_arith);
    lemma_euclid(p, ai, w - 1);
    let k = (w - 1) / pi;
    lemma_fundamental_div_mod(w - 1, pi);
    vstd::arithmetic::div_mod::lemma_mod_multiples_vanish(k, 1, pi);
    lemma_small_mod(1, p);
}

/// `m^(1 + t (p - 1)) = m (mod p)` for a prime `p`, whether or not `p`
/// divides `m`.
proof fn lemma_power_mod_prime(m: nat, p: nat, t: nat)
    requires
        is_prime(p),
    ensures
        pow(m as int, 1 + t * (p - 1) as nat) % (p as int) == (m as int) % (p as int),
{
    let pi = p as int;
    let mi = m as int;
    let e = (t * (p - 1) as nat) as nat;
    let x = pow(mi, e);
    vstd::arithmetic::power::lemma_pow_adds(mi, 1, e);
    vstd::arithmetic::power::lemma_pow1(mi);
    assert(pow(mi, 1 + e) == mi * x);
    if m % p == 0 {
        vstd::arithmetic::div_mod::lemma_mul_mod_noop_left(mi, x, pi);
        assert(0 * x == 0);
        lemma_small_mod(0, p);
    } else {
        lemma_fermat(m, p);
        vstd::arithmetic::power::lemma_pow_multiplies(mi, (p - 1) as nat, t);
        assert((p - 1) as nat * t == e) by (nonlinear_arith)
            requires
                e == t * (p - 1) as nat,
        ;
        vstd::arithmetic::power::lemma_pow_mod_noop(pow(mi, (p - 1) as nat), t, pi);
        vstd::arithmetic::power::lemma1_pow(t);
        lemma_small_mod(1, p);
        assert(x % pi == 1);
        vstd::arithmetic::div_mod::lemma_mul_mod_noop_right(mi, x, pi);
        assert(mi * 1 == mi);
    }
}

/// A number that two distinct primes divide is a multiple of their product.
proof fn lemma_two_prime_factors(p: nat, q: nat, x: int)
    requires
        is_prime(p),
        is_prime(q),
        p != q,
        x % (p as int) == 0,
        x % (q as int) == 0,
    ensures
        x % ((p * q) as int) == 0,
{
    let pi = p as int;
    let qi = q as int;
    let k = x / pi;
    lemma_fundamental_div_mod(x, pi);
    assert(x == pi * k);
    if q < p {
        assert(p % q != 0);
    } else {
        lemma_small_mod(p, q);
    }
    assert((pi * k) % qi == 0);
    lemma_euclid(q, pi, k);
    let j = k / qi;
    lemma_fundamental_div_mod(k, qi);
    assert(x == j * (pi * qi)) by (nonlinear_arith)
        requires
            x == pi * k,
            k == qi * j,
    ;
    assert(pi * qi > 0) by (nonlinear_arith)
        requires
            pi >= 2,
            qi >= 2,
    ;
    lemma_mod_multiples_basic(j, pi * qi);
}

/// Textbook RSA decrypts: for distinct primes `p` and `q` and exponents with
/// `e d = 1 (mod (p - 1)(q - 1))`, `(m^e)^d = m (mod p q)` for every `m`
/// below `p q`.
pub proof fn lemma_rsa_inverts(p: nat, q: nat, e: nat, d: nat, m: nat)
    requires
        is_prime(p),
        is_prime(q),
        p != q,
        ((e * d) as int) % (((p - 1) * (q - 1)) as int) == 1,
        m < p * q,
    ensures
        pow(pow(m as int, e) % ((p * q) as int), d) % ((p * q) as int) == m,
{
    let n = (p * q) as int;
    let phi = ((p - 1) * (q - 1)) as int;
    let mi = m as int;
    assert(p >= 2 && q >= 2);
    assert(phi >= 1) by (nonlinear_arith)
        requires
            p >= 2,
            q >= 2,
            phi == (p - 1) * (q - 1),
    ;
    assert(n > 0) by (nonlinear_arith)
        requires
            p >= 2,
            q >= 2,
            n == p * q,
    ;
    let ed = e * d;
    let t = (ed as int) / phi;
    lemma_fundamental_div_mod(ed as int, phi);
    assert(t >= 0) by (nonlinear_arith)
        requires
            ed >= 0,
            phi >= 1,
            t == (ed as int) / phi,
    {
        vstd::arithmetic::div_mod::lemma_div_pos_is_pos(ed as int, phi);
    }
    let tn = t as nat;
    // The exponent is one more than a multiple of both `p - 1` and `q - 1`.
    assert(ed == 1 + (tn * (q - 1) as nat) * (p - 1) as nat) by (nonlinear_arith)
        requires
            ed == phi * t + 1,
            phi == (p - 1) * (q - 1),
            tn == t,
            p >= 2,
            q >= 2,
    ;
    assert(ed == 1 + (tn * (p - 1) as nat) * (q - 1) as nat) by (nonlinear_arith)
        requires
            ed == phi * t + 1,
            phi == (p - 1) * (q - 1),
            tn == t,
            p >= 2,
            q >= 2,
    ;
    lemma_power_mod_prime(m, p, tn * (q - 1) as nat);
    lemma_power_mod_prime(m, q, tn * (p - 1) as nat);
    let big = pow(mi, ed);
    vstd::arithmetic::div_mod::lemma_sub_mod_noop(big, mi, p as int);
    vstd::arithmetic::div_mod::lemma_sub_mod_noop(big, mi, q as int);
    lemma_small_mod(0, p);
    lemma_small_mod(0, q);
    lemma_two_prime_factors(p, q, big - mi);
    let j = (big - mi) / n;
    lemma_fundamental_div_mod(big - mi, n);
    vstd::arithmetic::div_mod::lemma_mod_multiples_vanish(j, mi, n);
    lemma_small_mod(m, (p * q) as nat);
    vstd::arithmetic::power::lemma_pow_mod_noop(pow(mi, e), d, n);
    vstd::arithmetic::power::lemma_pow_multiplies(mi, e, d);
}

/// `n!`.
pub open spec fn factorial(n: nat) -> nat
    decreases n,
{
    if n == 0 {
        1
    } else {
        n * factorial((n - 1) as nat)
    }
}

/// `n!` is positive and a multiple of every number from one to `n`.
proof fn lemma_factorial_divisible(n: nat, d: nat)
    requires
        1 <= d <= n,
    ensures
        factorial(n) >= 1,
        factorial(n) % d == 0,
    decreases n,
{
    let n1 = (n - 1) as nat;
    let f1 = factorial(n1);
    if n1 >= 1 {
        lemma_factorial_divisible(n1, 1);
    }
    assert(f1 >= 1);
    assert(factorial(n) >= 1) by (nonlinear_arith)
        requires
            factorial(n) == n * f1,
            n >= 1,
            f1 >= 1,
    ;
    if d == n {
        lemma_mod_multiples_basic(f1 as int, n as int);
        assert(factorial(n) == f1 * n) by (nonlinear_arith)
            requires
                factorial(n) == n * f1,
        ;
    } else {
        lemma_factorial_divisible(n1, d);
        let k = f1 / d;
        lemma_fundamental_div_mod(f1 as int, d as int);
        assert(factorial(n) == (n * k) * d) by (nonlinear_arith)
            requires
                factorial(n) == n * f1,
                f1 == d * k,
        ;
        lemma_mod_multiples_basic((n * k) as int, d as int);
    }
}

/// Every number from two up has a prime divisor no larger than itself.
proof fn lemma_prime_divisor(n: nat) -> (q: nat)
    requires
        n >= 2,
    ensures
        is_prime(q),
        q <= n,
        n % q == 0,
    decreases n,
{
    if is_prime(n) {
        vstd::arithmetic::div_mod::lemma_mod_self_0(n as int);
        n
    } else {
        let d = choose|d: nat| 2 <= d < n && #[trigger] (n % d) == 0;
        let q = lemma_prime_divisor(d);
        let a = n / d;
        let b = d / q;
        lemma_fundamental_div_mod(n as int, d as int);
        lemma_fundamental_div_mod(d as int, q as int);
        assert(n == (a * b) * q) by (nonlinear_arith)
            requires
                n == d * a,
                d == q * b,
        ;
        lemma_mod_multiples_basic((a * b) as int, q as int);
        q
    }
}

/// Euclid: above every number there is a prime, at most its factorial plus
/// one.
pub proof fn lemma_prime_above(s: nat) -> (q: nat)
    ensures
        is_prime(q),
        s < q <= factorial(s) + 1,
{
    if s >= 1 {
        lemma_factorial_divisible(s, 1);
    }
    let x = factorial(s) + 1;
    let q = lemma_prime_divisor(x);
    if q <= s {
        lemma_factorial_divisible(s, q);
        vstd::arithmetic::div_mod::lemma_mod_multiples_vanish(
            (factorial(s) / q) as int,
            1,
            q as int,
        );
        lemma_fundamental_div_mod(factorial(s) as int, q as int);
        lemma_small_mod(1, q);
    }
    q
}

} // verus!
