//! The chunking codec: message text to fixed-width byte chunks sized to a
//! modulus, and positional numerals.
use vstd::prelude::*;
use vstd::arithmetic::power::pow;
use crate::natural::{Natural, bit_length, bits, be_value, lemma_be_value_bound};

verus! {

/// The byte of each character: its code point truncated to eight bits.
pub open spec fn message_bytes(s: Seq<char>) -> Seq<u8> {
    s.map_values(|c: char| c as u8)
}

/// The message bytes followed by the fewest zero bytes (fewer than `size`)
/// that make the length a multiple of `size`.
pub open spec fn padded_bytes(s: Seq<char>, size: nat) -> Seq<u8> {
    let b = message_bytes(s);
    b + Seq::new(((size - b.len() % size) % (size as int)) as nat, |i: int| 0u8)
}

/// The padded bytes fill whole chunks, and no more than needed.
pub proof fn lemma_padded_length(s: Seq<char>, size: nat)
    requires
        size > 0,
    ensures
        padded_bytes(s, size).len() % size == 0,
        padded_bytes(s, size).len() == size * (padded_bytes(s, size).len() / size),
        s.len() <= padded_bytes(s, size).len() < s.len() + size,
{
    let len = s.len() as int;
    let sz = size as int;
    let q = len / sz;
    let r = len % sz;
    let pl = padded_bytes(s, size).len() as int;
    vstd::arithmetic::div_mod::lemma_fundamental_div_mod(len, sz);
    if r == 0 {
        vstd::arithmetic::div_mod::lemma_mod_self_0(sz);
        assert(pl == sz * q);
        vstd::arithmetic::div_mod::lemma_mod_multiples_vanish(q, 0, sz);
    } else {
        vstd::arithmetic::div_mod::lemma_small_mod((sz - r) as nat, size);
        assert(pl == sz * (q + 1)) by (nonlinear_arith)
            requires
                len == sz * q + r,
                pl == len + (sz - r),
        ;
        vstd::arithmetic::div_mod::lemma_mod_multiples_vanish(q + 1, 0, sz);
    }
    vstd::arithmetic::div_mod::lemma_small_mod(0, size);
    vstd::arithmetic::div_mod::lemma_fundamental_div_mod(pl, sz);
}

/// `b` cut into consecutive pieces of `size` bytes.
pub open spec fn chunks_of(b: Seq<u8>, size: nat) -> Seq<Seq<u8>> {
    Seq::new(b.len() / size, |i: int| b.subrange(i * size, (i + 1) * size))
}

/// The chunks of a message for chunk width `size`.
pub open spec fn message_chunks(s: Seq<char>, size: nat) -> Seq<Seq<u8>> {
    chunks_of(padded_bytes(s, size), size)
}

/// The chunk width for modulus `n`: its bit length divided by eight, rounded
/// down.
pub open spec fn chunk_size(n: nat) -> nat {
    bit_length(n) / 8
}

/// The term of digit `i` (most significant first) in base `base`:
/// `digits[i] * base^(len - 1 - i)`, or zero for a digit `-1`.
pub open spec fn digit_term(digits: Seq<i64>, base: int, i: int) -> int {
    if digits[i] == -1 {
        0
    } else {
        digits[i] * pow(base, (digits.len() - 1 - i) as nat)
    }
}

/// The sum of the terms of the last `k` digits.
pub open spec fn tail_value(digits: Seq<i64>, base: int, k: nat) -> int
    decreases k,
{
    if k == 0 {
        0
    } else {
        tail_value(digits, base, (k - 1) as nat) + digit_term(digits, base, digits.len() - k)
    }
}

/// The value of digits written most significant first in base `base`; a
/// digit `-1` counts as zero.
pub open spec fn positional_value(digits: Seq<i64>, base: int) -> int {
    tail_value(digits, base, digits.len())
}

/// `x` fits in an `i64`.
pub open spec fn in_i64(x: int) -> bool {
    i64::MIN <= x <= i64::MAX
}

/// The magnitude of `x`.
pub open spec fn magnitude(x: int) -> int {
    if x < 0 {
        -x
    } else {
        x
    }
}

/// Summing the terms from the least significant digit up fits in an `i64`:
/// each power of the base that a digit other than `-1` needs, each term,
/// and each partial sum.
pub open spec fn fits_in_i64(digits: Seq<i64>, base: int) -> bool {
    &&& forall|i: int|
        0 <= i < digits.len() && digits[i] != -1 ==> in_i64(
            #[trigger] pow(base, (digits.len() - 1 - i) as nat),
        ) && in_i64(digits[i] * pow(base, (digits.len() - 1 - i) as nat))
    &&& forall|k: nat| k <= digits.len() ==> in_i64(#[trigger] tail_value(digits, base, k))
}

/// `|b^j|` is at most one or at most `|b^e|`, for `j <= e`.
proof fn lemma_pow_magnitude_monotone(b: int, j: nat, e: nat)
    requires
        j <= e,
    ensures
        magnitude(pow(b, j)) <= 1 || magnitude(pow(b, j)) <= magnitude(pow(b, e)),
    decreases e - j,
{
    if j < e {
        let e1 = (e - 1) as nat;
        lemma_pow_magnitude_monotone(b, j, e1);
        vstd::arithmetic::power::lemma_pow_adds(b, e1, 1);
        vstd::arithmetic::power::lemma_pow1(b);
        let x = pow(b, e1);
        assert(pow(b, e) == x * b);
        if b == 0 {
            if j >= 1 {
                vstd::arithmetic::power::lemma0_pow(j);
            } else {
                vstd::arithmetic::power::lemma_pow0(b);
            }
        } else {
            assert(magnitude(x) <= magnitude(x * b)) by (nonlinear_arith)
                requires
                    b != 0,
                    magnitude(x) == if x < 0 { -x } else { x },
                    magnitude(x * b) == if x * b < 0 { -(x * b) } else { x * b },
            ;
        }
    }
}

/// `base^e`, for a power that fits in an `i64`.
fn power(base: i64, e: usize) -> (r: i64)
    requires
        in_i64(pow(base as int, e as nat)),
    ensures
        r == pow(base as int, e as nat),
{
    let mut p: i128 = 1;
    let mut j: usize = 0;
    proof {
        vstd::arithmetic::power::lemma_pow0(base as int);
    }
    while j < e
        invariant
            j <= e,
            p == pow(base as int, j as nat),
            in_i64(pow(base as int, e as nat)),
        decreases e - j,
    {
        proof {
            lemma_pow_magnitude_monotone(base as int, j as nat, e as nat);
            assert(-9223372036854775808 <= p <= 9223372036854775808);
            assert(-85070591730234615865843651857942052864 <= p * (base as i128)
                <= 85070591730234615865843651857942052864) by (nonlinear_arith)
                requires
                    -9223372036854775808 <= p <= 9223372036854775808,
                    -9223372036854775808 <= base <= 9223372036854775807,
            ;
            vstd::arithmetic::power::lemma_pow_adds(base as int, j as nat, 1);
            vstd::arithmetic::power::lemma_pow1(base as int);
        }
        p = p * (base as i128);
        j = j + 1;
    }
    p as i64
}

/// The value in base `base` of `digits`, most significant first; a digit
/// `-1` stands for zero. The terms are summed from the least significant
/// digit up.
pub fn base_n_to_base10(digits: &Vec<i64>, base: i64) -> (r: i64)
    requires
        fits_in_i64(digits@, base as int),
    ensures
        r == positional_value(digits@, base as int),
{
    let len = digits.len();
    let mut acc: i64 = 0;
    let mut k: usize = 0;
    while k < len
        invariant
            len == digits@.len(),
            k <= len,
            fits_in_i64(digits@, base as int),
            acc == tail_value(digits@, base as int, k as nat),
        decreases len - k,
    {
        let i = len - 1 - k;
        let d = digits[i];
        proof {
            assert(in_i64(tail_value(digits@, base as int, (k + 1) as nat)));
            assert((digits@.len() - 1 - i) as nat == k as nat);
            assert(digits@.len() - (k + 1) == i);
        }
        if d != -1 {
            let p = power(base, k);
            let term = d * p;
            acc = acc + term;
        }
        k = k + 1;
    }
    acc
}

/// The chunk width for modulus `n`, in bytes: its bit length divided by
/// eight, rounded down (and held at `usize::MAX` on a machine too narrow to
/// count that many bytes).
pub fn calculate_chunk_size(n: &Natural) -> (r: usize)
    ensures
        chunk_size(n@) <= usize::MAX ==> r as nat == chunk_size(n@),
        chunk_size(n@) > usize::MAX ==> r == usize::MAX,
{
    let b = bits(n) / 8;
    if b <= usize::MAX as u64 {
        b as usize
    } else {
        usize::MAX
    }
}

/// The bytes of `s`, one per character, padded with the fewest zero bytes
/// that make the length a multiple of `chunk_size`, and cut into chunks of
/// that many bytes.
pub fn chunk_message(s: &str, chunk_size: usize) -> (r: Vec<Vec<u8>>)
    requires
        chunk_size > 0,
        s@.len() + chunk_size <= usize::MAX,
    ensures
        r@.len() == message_chunks(s@, chunk_size as nat).len(),
        forall|i: int| 0 <= i < r@.len() ==> #[trigger] r@[i]@ == message_chunks(
            s@,
            chunk_size as nat,
        )[i],
{
    let n = s.unicode_len();
    let mut bytes: Vec<u8> = Vec::new();
    let mut i: usize = 0;
    while i < n
        invariant
            n == s@.len(),
            i <= n,
            bytes@ =~= message_bytes(s@).take(i as int),
        decreases n - i,
    {
        let c = s.get_char(i);
        bytes.push(#[verifier::truncate] (c as u8));
        i = i + 1;
    }
    let padding = (chunk_size - n % chunk_size) % chunk_size;
    let mut k: usize = 0;
    while k < padding
        invariant
            n == s@.len(),
            padding == (chunk_size - n % chunk_size) % (chunk_size as int),
            k <= padding,
            bytes@ =~= message_bytes(s@) + Seq::new(k as nat, |j: int| 0u8),
        decreases padding - k,
    {
        bytes.push(0);
        k = k + 1;
    }
    let ghost padded = padded_bytes(s@, chunk_size as nat);
    assert(bytes@ =~= padded);
    let total = bytes.len();
    proof {
        lemma_padded_length(s@, chunk_size as nat);
    }
    let count = total / chunk_size;
    let mut chunks: Vec<Vec<u8>> = Vec::new();
    let mut c: usize = 0;
    while c < count
        invariant
            bytes@ == padded,
            total == bytes@.len(),
            count == total / chunk_size,
            chunk_size > 0,
            c <= count,
            chunks@.len() == c,
            forall|j: int| 0 <= j < c ==> #[trigger] chunks@[j]@ == chunks_of(
                padded,
                chunk_size as nat,
            )[j],
        decreases count - c,
    {
        proof {
            vstd::arithmetic::div_mod::lemma_fundamental_div_mod(total as int, chunk_size as int);
            assert(c * chunk_size + chunk_size <= total) by (nonlinear_arith)
                requires
                    c < count,
                    total == chunk_size * count + total % chunk_size,
                    total % chunk_size >= 0,
                    chunk_size > 0,
            ;
        }
        let start = c * chunk_size;
        let mut piece: Vec<u8> = Vec::new();
        let mut b: usize = 0;
        while b < chunk_size
            invariant
                bytes@ == padded,
                total == bytes@.len(),
                start + chunk_size <= total,
                b <= chunk_size,
                piece@ =~= padded.subrange(start as int, start + b),
            decreases chunk_size - b,
        {
            piece.push(bytes[start + b]);
            b = b + 1;
        }
        proof {
            assert(start + chunk_size == (c + 1) * chunk_size) by (nonlinear_arith)
                requires
                    start == c * chunk_size,
            ;
        }
        chunks.push(piece);
        c = c + 1;
    }
    chunks
}

/// A positive `n` lies between `2^(b - 1)` and `2^b` for `b` its bit length.
pub proof fn lemma_bit_length_bounds(n: nat)
    requires
        n > 0,
    ensures
        bit_length(n) >= 1,
        pow(2, (bit_length(n) - 1) as nat) <= n < pow(2, bit_length(n)),
    decreases n,
{
    let b = bit_length(n);
    vstd::arithmetic::power::lemma_pow_adds(2, (b - 1) as nat, 1);
    vstd::arithmetic::power::lemma_pow1(2);
    if n == 1 {
        vstd::arithmetic::power::lemma_pow0(2);
        assert(bit_length(0) == 0);
    } else {
        lemma_bit_length_bounds(n / 2);
        let b1 = bit_length(n / 2);
        vstd::arithmetic::power::lemma_pow_adds(2, (b1 - 1) as nat, 1);
    }
}

/// Two hundred and fifty-six is two to the eighth.
proof fn lemma_pow2_8()
    ensures
        pow(2, 8) == 256,
{
    reveal_with_fuel(pow, 9);
}

/// A modulus of at least 256 gives chunks of at least one byte.
pub proof fn lemma_chunk_size_positive(n: nat)
    requires
        n >= 256,
    ensures
        chunk_size(n) >= 1,
{
    lemma_bit_length_bounds(n);
    lemma_pow2_8();
    if bit_length(n) < 9 {
        vstd::arithmetic::power::lemma_pow_increases(2, bit_length(n), 8);
    }
}

/// `256^k` is `2^(8k)`.
proof fn lemma_pow256(k: nat)
    ensures
        pow(256, k) == pow(2, 8 * k),
{
    lemma_pow2_8();
    vstd::arithmetic::power::lemma_pow_multiplies(2, 8, k);
}

/// An ASCII character's byte is below 128.
pub proof fn lemma_ascii_byte(c: char)
    requires
        '\0' <= c <= '\u{7f}',
    ensures
        (c as u8) < 128,
{
    let x = c as u32;
    assert(x <= 0x7f);
    assert(x <= 0x7f ==> (x as u8) < 128) by (bit_vector);
}

/// Each chunk of a message holds `size` bytes, taken from the padded bytes.
pub proof fn lemma_chunk_shape(s: Seq<char>, size: nat, i: int)
    requires
        size > 0,
        0 <= i < message_chunks(s, size).len(),
    ensures
        message_chunks(s, size)[i].len() == size,
        (i + 1) * size <= padded_bytes(s, size).len(),
        forall|j: int|
            0 <= j < size ==> #[trigger] message_chunks(s, size)[i][j] == padded_bytes(s, size)[i
                * size + j],
{
    let b = padded_bytes(s, size);
    let k = b.len() / size;
    vstd::arithmetic::div_mod::lemma_fundamental_div_mod(b.len() as int, size as int);
    assert((i + 1) * size <= b.len()) by (nonlinear_arith)
        requires
            i < k,
            b.len() == size * k + b.len() % size,
            b.len() % size >= 0,
    ;
    assert((i + 1) * size - i * size == size) by (nonlinear_arith);
    assert(0 <= i * size) by (nonlinear_arith)
        requires
            i >= 0,
    ;
}

/// Every chunk of a message, read as a big-endian number, is below the
/// modulus `n` whose chunk width was used. A chunk has fewer bits than `n`
/// unless the bit length of `n` is a multiple of eight; then a message whose
/// character bytes are all below 128 (ASCII, for one) keeps the top bit of
/// every chunk clear.
pub proof fn lemma_chunks_below_modulus(s: Seq<char>, n: nat, i: int)
    requires
        n >= 256,
        bit_length(n) % 8 != 0 || forall|j: int|
            0 <= j < s.len() ==> #[trigger] message_bytes(s)[j] < 128,
        0 <= i < message_chunks(s, chunk_size(n)).len(),
    ensures
        be_value(message_chunks(s, chunk_size(n))[i]) < n,
{
    let size = chunk_size(n);
    let bl = bit_length(n);
    lemma_chunk_size_positive(n);
    lemma_bit_length_bounds(n);
    lemma_chunk_shape(s, size, i);
    let chunk = message_chunks(s, size)[i];
    lemma_be_value_bound(chunk);
    lemma_pow256(size);
    if bl % 8 != 0 {
        assert(8 * size <= (bl - 1) as nat);
        vstd::arithmetic::power::lemma_pow_increases(2, 8 * size, (bl - 1) as nat);
    } else {
        let first = chunk[0];
        let at = i * size;
        let padded = padded_bytes(s, size);
        assert(at + size <= padded.len()) by (nonlinear_arith)
            requires
                at == i * size,
                (i + 1) * size <= padded.len(),
        ;
        assert(first == padded[i * size + 0]);
        assert(first == padded[at]);
        if at < s.len() {
            assert(message_bytes(s)[at as int] < 128);
        }
        assert(first < 128);
        lemma_pow256((size - 1) as nat);
        let rest = (8 * (size - 1)) as nat;
        vstd::arithmetic::power::lemma_pow_adds(2, 7, rest);
        vstd::arithmetic::power::lemma_pow_positive(2, rest);
        assert(pow(2, 7) == 128) by {
            reveal_with_fuel(pow, 8);
        }
        assert(be_value(chunk) < 128 * pow(2, rest)) by (nonlinear_arith)
            requires
                be_value(chunk) < (first + 1) * pow(2, rest),
                first < 128,
                pow(2, rest) > 0,
        ;
        assert(7 + rest <= (bl - 1) as nat);
        vstd::arithmetic::power::lemma_pow_positive(2, rest);
        vstd::arithmetic::power::lemma_pow_increases(2, 7 + rest, (bl - 1) as nat);
    }
}

} // verus!
