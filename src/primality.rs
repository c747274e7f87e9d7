//! Miller–Rabin primality testing with a fixed table of small-prime
//! witnesses, and random probable-prime generation.
use vstd::prelude::*;
use vstd::arithmetic::power::{pow, lemma_pow_adds, lemma_pow1, lemma_pow_mod_noop, lemma_pow_multiplies, lemma_pow0};
use crate::natural::{
    Natural, two_adic, nat_lt, nat_sub, nat_rem, nat_add, modpow, trailing_zeros, shr, random_bits,
};

verus! {

/// The primes below one hundred, in increasing order: the sieve table and the
/// witnesses of the test.
pub open spec fn small_primes() -> Seq<nat> {
    seq![
        2nat, 3, 5, 7, 11, 13, 17, 19, 23, 29, 31, 37, 41, 43, 47, 53, 59, 61, 67, 71, 73, 79, 83,
        89, 97,
    ]
}

/// `a^(d * 2^j) mod n`, where `n - 1 = 2^s * d` with `d` odd.
pub open spec fn witness_power(n: nat, a: nat, j: nat) -> int {
    let s = two_adic((n - 1) as nat);
    let d = ((n - 1) as nat) / (pow(2, s) as nat);
    pow(a as int, d * (pow(2, j) as nat)) % (n as int)
}

/// One round of Miller–Rabin with witness `a`: `a^d` is one, or one of
/// `a^d, a^(2d), ..., a^(2^(s-1) d)` is `n - 1` (all modulo `n`).
pub open spec fn witness_passes(n: nat, a: nat) -> bool {
    let s = two_adic((n - 1) as nat);
    witness_power(n, a, 0) == 1 || exists|j: nat| j < s && #[trigger] witness_power(n, a, j) == n
        - 1
}

/// What `miller_rabin(n, k)` answers: below two, no; a prime of the table,
/// yes; a multiple of one, no; otherwise whether the first `k` witnesses,
/// cycling through the table, all pass.
pub open spec fn probably_prime(n: nat, k: nat) -> bool {
    if n < 2 {
        false
    } else if small_primes().contains(n) {
        true
    } else if exists|i: int| 0 <= i < 25 && #[trigger] (n % small_primes()[i]) == 0 {
        false
    } else {
        forall|i: nat| i < k ==> #[trigger] witness_passes(n, small_primes()[(i % 25) as int])
    }
}

/// Squaring `a^e mod n` gives `a^(2e) mod n`.
proof fn lemma_square_mod(a: int, e: nat, n: int)
    requires
        n > 0,
    ensures
        pow(pow(a, e) % n, 2) % n == pow(a, e * 2) % n,
{
    lemma_pow_mod_noop(pow(a, e), 2, n);
    lemma_pow_multiplies(a, e, 2);
}

/// One Miller–Rabin round: `d` is the odd part of `n - 1` and `s` its number
/// of factors two.
fn witness_round(n: &Natural, a: &Natural, d: &Natural, s: u64, n_minus_one: &Natural) -> (r:
    bool)
    requires
        n@ > 2,
        n@ % 2 == 1,
        n_minus_one@ == n@ - 1,
        s as nat == two_adic((n@ - 1) as nat),
        d@ == ((n@ - 1) as nat) / (pow(2, s as nat) as nat),
    ensures
        r == witness_passes(n@, a@),
{
    let one = Natural::from_u64(1);
    let two = Natural::from_u64(2);
    let mut x = modpow(a, d, n);
    proof {
        lemma_pow0(2);
        assert(d@ * (pow(2, 0) as nat) == d@) by (nonlinear_arith)
            requires
                pow(2, 0) == 1,
        ;
        assert(x@ == witness_power(n@, a@, 0));
        assert(s >= 1);
    }
    if x == one || x == *n_minus_one {
        proof {
            if x@ != 1 {
                assert(witness_power(n@, a@, 0) == n@ - 1);
            }
        }
        return true;
    }
    let mut j: u64 = 1;
    while j < s
        invariant
            1 <= j,
            j <= s || j == 1,
            n@ > 2,
            one@ == 1,
            two@ == 2,
            n_minus_one@ == n@ - 1,
            s as nat == two_adic((n@ - 1) as nat),
            d@ == ((n@ - 1) as nat) / (pow(2, s as nat) as nat),
            witness_power(n@, a@, 0) != 1,
            x@ == witness_power(n@, a@, (j - 1) as nat),
            forall|i: nat| i < j ==> #[trigger] witness_power(n@, a@, i) != n@ - 1,
        decreases s - j,
    {
        let ghost e = d@ * (pow(2, (j - 1) as nat) as nat);
        proof {
            lemma_square_mod(a@ as int, e, n@ as int);
            lemma_pow_adds(2, (j - 1) as nat, 1);
            lemma_pow1(2);
            vstd::arithmetic::power::lemma_pow_positive(2, (j - 1) as nat);
            let pj1 = pow(2, (j - 1) as nat);
            let pj = pow(2, j as nat);
            assert((j - 1) as nat + 1 == j as nat);
            assert(pj == pj1 * 2);
            let dd = d@ as int;
            assert(dd * pj1 * 2 == dd * pj) by (nonlinear_arith)
                requires
                    pj == pj1 * 2,
            ;
        }
        x = modpow(&x, &two, n);
        proof {
            assert(x@ == witness_power(n@, a@, j as nat));
        }
        if x == *n_minus_one {
            return true;
        }
        j = j + 1;
    }
    false
}

/// The Miller–Rabin test with `k` rounds. Numbers below two are rejected, the
/// primes below one hundred accepted and their other multiples rejected;
/// any other `n` must then pass `k` rounds whose witnesses cycle through
/// those primes.
pub fn miller_rabin(n: &Natural, k: usize) -> (r: bool)
    ensures
        r == probably_prime(n@, k as nat),
{
    let two = Natural::from_u64(2);
    if nat_lt(n, &two) {
        return false;
    }
    let table: Vec<u64> = vec![
        2, 3, 5, 7, 11, 13, 17, 19, 23, 29, 31, 37, 41, 43, 47, 53, 59, 61, 67, 71, 73, 79, 83, 89,
        97,
    ];
    assert(table@.len() == 25);
    assert(forall|i: int| 0 <= i < 25 ==> table@[i] as nat == #[trigger] small_primes()[i]);
    let mut i: usize = 0;
    while i < 25
        invariant
            table@.len() == 25,
            forall|i: int| 0 <= i < 25 ==> table@[i] as nat == #[trigger] small_primes()[i],
            forall|j: int| 0 <= j < i ==> small_primes()[j] != n@,
        decreases 25 - i,
    {
        if *n == Natural::from_u64(table[i]) {
            proof {
                assert(small_primes()[i as int] == n@);
                assert(small_primes().contains(n@));
            }
            return true;
        }
        i = i + 1;
    }
    let mut i: usize = 0;
    while i < 25
        invariant
            table@.len() == 25,
            forall|i: int| 0 <= i < 25 ==> table@[i] as nat == #[trigger] small_primes()[i],
            !small_primes().contains(n@),
            forall|j: int| 0 <= j < i ==> #[trigger] (n@ % small_primes()[j]) != 0,
        decreases 25 - i,
    {
        let p = Natural::from_u64(table[i]);
        if nat_rem(n, &p).is_zero() {
            proof {
                assert(n@ % small_primes()[i as int] == 0);
            }
            return false;
        }
        i = i + 1;
    }
    let one = Natural::from_u64(1);
    let n_minus_one = nat_sub(n, &one);
    proof {
        assert(n@ % small_primes()[0] != 0);
        assert(n@ > 2);
        assert(n@ % 2 == 1);
    }
    let s = trailing_zeros(&n_minus_one).unwrap();
    let d = shr(&n_minus_one, s);
    let mut i: usize = 0;
    while i < k
        invariant
            table@.len() == 25,
            forall|i: int| 0 <= i < 25 ==> table@[i] as nat == #[trigger] small_primes()[i],
            n@ > 2,
            n@ % 2 == 1,
            !small_primes().contains(n@),
            forall|j: int| 0 <= j < 25 ==> #[trigger] (n@ % small_primes()[j]) != 0,
            n_minus_one@ == n@ - 1,
            s as nat == two_adic((n@ - 1) as nat),
            d@ == ((n@ - 1) as nat) / (pow(2, s as nat) as nat),
            forall|j: nat| j < i ==> #[trigger] witness_passes(
                n@,
                small_primes()[(j % 25) as int],
            ),
        decreases k - i,
    {
        let a = Natural::from_u64(table[i % 25]);
        if !witness_round(n, &a, &d, s, &n_minus_one) {
            proof {
                assert((i as nat % 25) as int == (i % 25) as int);
                assert(!witness_passes(n@, small_primes()[((i as nat) % 25) as int]));
            }
            return false;
        }
        i = i + 1;
    }
    true
}

/// The rounds of the test that prime generation applies to each candidate.
pub const GENERATION_ROUNDS: usize = 5;

/// `start` itself when odd, else the next number up.
pub open spec fn odd_from(start: nat) -> nat {
    if start % 2 == 1 {
        start
    } else {
        start + 1
    }
}

/// The first odd number from `start` (made odd) that passes
/// `GENERATION_ROUNDS` rounds of the test. The search always ends: every
/// prime passes the test, and there are primes above every number.
pub fn search_prime(start: &Natural) -> (r: Natural)
    ensures
        probably_prime(r@, GENERATION_ROUNDS as nat),
        r@ % 2 == 1,
        odd_from(start@) <= r@,
        forall|t: nat|
            odd_from(start@) + 2 * t < r@ ==> !#[trigger] probably_prime(
                odd_from(start@) + 2 * t,
                GENERATION_ROUNDS as nat,
            ),
        forall|q: nat| is_prime(q) && q % 2 == 1 && odd_from(start@) <= q ==> r@ <= q,
{
    let one = Natural::from_u64(1);
    let two = Natural::from_u64(2);
    let first = if start.is_even() {
        nat_add(start, &one)
    } else {
        start.clone()
    };
    // An odd prime above the first candidate bounds the search.
    let ghost bound = crate::number_theory::lemma_prime_above(first@ + 1);
    proof {
        assert(bound % 2 != 0);
        lemma_primes_pass(bound, GENERATION_ROUNDS as nat);
    }
    let mut candidate = first.clone();
    let ghost mut steps: nat = 0;
    while !miller_rabin(&candidate, GENERATION_ROUNDS)
        invariant
            first@ == odd_from(start@),
            two@ == 2,
            candidate@ == first@ + 2 * steps,
            candidate@ <= bound,
            bound % 2 == 1,
            first@ % 2 == 1,
            probably_prime(bound, GENERATION_ROUNDS as nat),
            forall|t: nat|
                first@ + 2 * t < candidate@ ==> !#[trigger] probably_prime(
                    first@ + 2 * t,
                    GENERATION_ROUNDS as nat,
                ),
        decreases bound - candidate@,
    {
        proof {
            assert(candidate@ != bound);
            assert(candidate@ + 2 <= bound);
        }
        candidate = nat_add(&candidate, &two);
        proof {
            steps = steps + 1;
        }
    }
    proof {
        assert forall|q: nat|
            is_prime(q) && q % 2 == 1 && first@ <= q implies candidate@ <= q by {
            if q < candidate@ {
                let t = ((q - first@) / 2) as nat;
                assert(first@ + 2 * t == q);
                lemma_primes_pass(q, GENERATION_ROUNDS as nat);
            }
        }
    }
    candidate
}

/// A probable prime of about `bits` bits: the first odd number passing
/// `GENERATION_ROUNDS` rounds of the test, searching up from a random start
/// below `2^bits`.
pub fn generate_prime(bits: usize) -> (r: Natural)
    ensures
        probably_prime(r@, GENERATION_ROUNDS as nat),
        r@ % 2 == 1,
{
    let start = random_bits(bits as u64);
    search_prime(&start)
}

/// A number the test accepts, with at least twenty rounds, is two, or odd
/// and greater than two: every other even number is a multiple of the first
/// prime of the table.
pub proof fn lemma_accepted_is_two_or_odd(n: nat, rounds: nat)
    requires
        rounds >= 20,
        probably_prime(n, rounds),
    ensures
        n == 2 || (n % 2 == 1 && n > 2),
{
    if n % 2 == 0 && n != 2 {
        assert(n % small_primes()[0] == 0);
        if small_primes().contains(n) {
            let i = choose|i: int| 0 <= i < small_primes().len() && small_primes()[i] == n;
            assert(small_primes()[i] % 2 == 1 || small_primes()[i] == 2);
        }
    }
}

/// `p` is prime: at least two, with no divisor strictly between one and `p`.
pub open spec fn is_prime(p: nat) -> bool {
    p >= 2 && forall|d: nat| 2 <= d < p ==> #[trigger] (p % d) != 0
}

/// `n` is composite: at least two, with a divisor strictly between one and
/// `n`.
pub open spec fn is_composite(n: nat) -> bool {
    n >= 2 && exists|d: nat| 2 <= d < n && #[trigger] (n % d) == 0
}

/// Every prime up to ninety-seven is in the table.
proof fn lemma_small_prime_in_table(p: nat)
    requires
        is_prime(p),
        p <= 97,
    ensures
        small_primes().contains(p),
{
    if p > 2 {
        assert(p % 2 != 0);
    }
    if p > 3 {
        assert(p % 3 != 0);
    }
    if p > 5 {
        assert(p % 5 != 0);
    }
    if p > 7 {
        assert(p % 7 != 0);
    }
    let t = small_primes();
    assert(t[0] == 2 && t[1] == 3 && t[2] == 5 && t[3] == 7 && t[4] == 11 && t[5] == 13 && t[6]
        == 17 && t[7] == 19 && t[8] == 23 && t[9] == 29 && t[10] == 31 && t[11] == 37 && t[12]
        == 41 && t[13] == 43 && t[14] == 47 && t[15] == 53 && t[16] == 59 && t[17] == 61 && t[18]
        == 67 && t[19] == 71 && t[20] == 73 && t[21] == 79 && t[22] == 83 && t[23] == 89 && t[24]
        == 97);
}

/// No entry of the table has a divisor between two and nine other than
/// itself.
proof fn lemma_table_has_no_small_divisor(i: int, e: nat)
    requires
        0 <= i < 25,
        2 <= e <= 9,
        e < small_primes()[i],
    ensures
        small_primes()[i] % e != 0,
{
    let t = small_primes()[i];
    assert(t == 2 || t == 3 || t == 5 || t == 7 || t == 11 || t == 13 || t == 17 || t == 19 || t
        == 23 || t == 29 || t == 31 || t == 37 || t == 41 || t == 43 || t == 47 || t == 53 || t
        == 59 || t == 61 || t == 67 || t == 71 || t == 73 || t == 79 || t == 83 || t == 89 || t
        == 97);
    if e == 2 {
    } else if e == 3 {
    } else if e == 4 {
    } else if e == 5 {
    } else if e == 6 {
    } else if e == 7 {
    } else if e == 8 {
    } else {
        assert(e == 9);
    }
}

/// A composite number up to ninety-seven has a divisor between two and
/// nine, below itself.
proof fn lemma_composite_has_small_divisor(n: nat) -> (e: nat)
    requires
        is_composite(n),
        n <= 97,
    ensures
        2 <= e <= 9,
        e < n,
        n % e == 0,
{
    let d = choose|d: nat| 2 <= d < n && #[trigger] (n % d) == 0;
    if d <= 9 {
        d
    } else {
        let q = n / d;
        vstd::arithmetic::div_mod::lemma_fundamental_div_mod(n as int, d as int);
        assert(n == d * q);
        assert(2 <= q <= 9) by (nonlinear_arith)
            requires
                n == d * q,
                10 <= d < n,
                n <= 97,
        ;
        vstd::arithmetic::div_mod::lemma_mod_multiples_basic(d as int, q as int);
        assert(n == d * q);
        assert(((d * q) as int) % (q as int) == 0);
        q
    }
}

/// A composite number with a prime factor up to ninety-seven is rejected,
/// whatever the number of rounds: the sieve finds the factor.
pub proof fn lemma_small_factor_rejected(n: nat, p: nat, rounds: nat)
    requires
        is_composite(n),
        is_prime(p),
        p <= 97,
        n % p == 0,
        rounds >= 1,
    ensures
        !probably_prime(n, rounds),
{
    lemma_small_prime_in_table(p);
    let i = choose|i: int| 0 <= i < small_primes().len() && small_primes()[i] == p;
    assert(n % small_primes()[i] == 0);
    if small_primes().contains(n) {
        let j = choose|j: int| 0 <= j < small_primes().len() && small_primes()[j] == n;
        let e = lemma_composite_has_small_divisor(n);
        lemma_table_has_no_small_divisor(j, e);
    }
}

/// A square root of one modulo a prime is one or minus one.
proof fn lemma_square_root_of_one(p: nat, x: int)
    requires
        is_prime(p),
        0 <= x < p,
        (x * x) % (p as int) == 1,
    ensures
        x == 1 || x == p - 1,
{
    let pi = p as int;
    vstd::arithmetic::div_mod::lemma_sub_mod_noop(x * x, 1, pi);
    vstd::arithmetic::div_mod::lemma_small_mod(1, p);
    vstd::arithmetic::div_mod::lemma_small_mod(0, p);
    assert((x - 1) * (x + 1) == x * x - 1) by (nonlinear_arith);
    if (x - 1) % pi != 0 {
        crate::number_theory::lemma_euclid(p, x - 1, x + 1);
        if x + 1 < pi {
            vstd::arithmetic::div_mod::lemma_small_mod((x + 1) as nat, p);
        }
    } else if x != 1 {
        if x == 0 {
            assert((x - 1) % pi == pi - 1) by {
                vstd::arithmetic::div_mod::lemma_mod_multiples_vanish(-1, pi - 1, pi);
                vstd::arithmetic::div_mod::lemma_small_mod((p - 1) as nat, p);
            }
        } else {
            vstd::arithmetic::div_mod::lemma_small_mod((x - 1) as nat, p);
        }
    }
}

/// Each witness power is the square of the one before, modulo `n`.
proof fn lemma_witness_power_step(n: nat, a: nat, j: nat)
    requires
        n > 2,
    ensures
        witness_power(n, a, j + 1) == (witness_power(n, a, j) * witness_power(n, a, j)) % (
        n as int),
{
    let s = two_adic((n - 1) as nat);
    let d = ((n - 1) as nat) / (pow(2, s) as nat);
    vstd::arithmetic::power::lemma_pow_positive(2, j);
    let e = d * (pow(2, j) as nat);
    lemma_square_mod(a as int, e, n as int);
    lemma_pow_adds(2, j, 1);
    lemma_pow1(2);
    let pj = pow(2, j);
    assert(pj > 0);
    assert((pow(2, j) as nat) as int == pj);
    let pjn = pow(2, j) as nat;
    assert(e == d * pj) by (nonlinear_arith)
        requires
            e == d * pjn,
            pjn == pj,
    ;
    vstd::arithmetic::power::lemma_pow_positive(2, j + 1);
    assert(e * 2 == d * (pow(2, j + 1) as nat)) by (nonlinear_arith)
        requires
            e == d * pj,
            pow(2, j + 1) == pj * 2,
    ;
    vstd::arithmetic::power::lemma_square_is_pow2(witness_power(n, a, j));
}

/// If a witness power is one, the first is one or an earlier one is minus
/// one, modulo a prime.
proof fn lemma_first_one(p: nat, a: nat, j: nat)
    requires
        is_prime(p),
        p > 2,
        witness_power(p, a, j) == 1,
    ensures
        witness_power(p, a, 0) == 1 || exists|i: nat| i < j && #[trigger] witness_power(p, a, i)
            == p - 1,
    decreases j,
{
    if j > 0 {
        let i = (j - 1) as nat;
        lemma_witness_power_step(p, a, i);
        let x = witness_power(p, a, i);
        lemma_square_root_of_one(p, x);
        if x == 1 {
            lemma_first_one(p, a, i);
        } else {
            assert(witness_power(p, a, i) == p - 1);
        }
    }
}

/// A prime passes the round of every witness it does not divide.
proof fn lemma_prime_passes_round(p: nat, a: nat)
    requires
        is_prime(p),
        p > 2,
        a % p != 0,
    ensures
        witness_passes(p, a),
{
    let s = two_adic((p - 1) as nat);
    let d = ((p - 1) as nat) / (pow(2, s) as nat);
    crate::math::lemma_two_adic((p - 1) as nat, s);
    crate::number_theory::lemma_fermat(a, p);
    vstd::arithmetic::power::lemma_pow_positive(2, s);
    assert(((p - 1) as nat) == d * pow(2, s));
    assert(d * (pow(2, s) as nat) == p - 1);
    assert(witness_power(p, a, s) == 1);
    lemma_first_one(p, a, s);
}

/// Every prime passes the test, with any number of rounds.
pub proof fn lemma_primes_pass(p: nat, rounds: nat)
    requires
        is_prime(p),
    ensures
        probably_prime(p, rounds),
{
    if !small_primes().contains(p) {
        if p <= 97 {
            lemma_small_prime_in_table(p);
        }
        let t = small_primes();
        assert(t[0] == 2 && t[1] == 3 && t[2] == 5 && t[3] == 7 && t[4] == 11 && t[5] == 13
            && t[6] == 17 && t[7] == 19 && t[8] == 23 && t[9] == 29 && t[10] == 31 && t[11] == 37
            && t[12] == 41 && t[13] == 43 && t[14] == 47 && t[15] == 53 && t[16] == 59 && t[17]
            == 61 && t[18] == 67 && t[19] == 71 && t[20] == 73 && t[21] == 79 && t[22] == 83
            && t[23] == 89 && t[24] == 97);
        assert forall|i: int| 0 <= i < 25 implies #[trigger] (p % small_primes()[i]) != 0 by {
            assert(2 <= t[i] < p);
        }
        assert forall|i: nat| i < rounds implies #[trigger] witness_passes(
            p,
            small_primes()[(i % 25) as int],
        ) by {
            let a = small_primes()[(i % 25) as int];
            assert(2 <= a < p);
            vstd::arithmetic::div_mod::lemma_small_mod(a, p);
            lemma_prime_passes_round(p, a);
        }
    }
}

} // verus!
