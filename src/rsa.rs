//! Textbook RSA over tuple keys: raw encryption and decryption, whole-message
//! encryption through the chunking codec, and key-pair generation.
use vstd::prelude::*;
use vstd::arithmetic::power::pow;
use vstd::utf8::{valid_utf8, decode_utf8, is_ascii_chars, encode_utf8};
use crate::natural::{
    Natural, Integer, be_value, be_bytes, modpow, from_bytes_be, to_bytes_be, nat_mul,
    lemma_be_round_trip, lemma_be_value_zero,
};
use crate::math::{coprime, mod_inverse, calculate_totient};
use crate::primality::{probably_prime, generate_prime, is_prime, GENERATION_ROUNDS};
use crate::number_theory::lemma_rsa_inverts;
use crate::utils::{
    message_chunks, message_bytes, padded_bytes, chunk_size, calculate_chunk_size, chunk_message,
    lemma_chunk_size_positive, lemma_chunk_shape, lemma_chunks_below_modulus,
};

verus! {

/// The public exponent of every generated key.
pub const PUBLIC_EXPONENT: u64 = 65537;

/// Why a message could not be decrypted.
#[derive(Debug, Clone, Copy, PartialEq, Eq)]
pub enum DecryptError {
    /// The decrypted bytes are not UTF-8 text.
    NonUtf8DecodedMessage,
}

/// `m^e mod n`, the one operation behind both encryption and decryption.
pub open spec fn rsa_apply(m: nat, e: nat, n: nat) -> nat {
    (pow(m as int, e) % (n as int)) as nat
}

/// The encrypted chunk values of message `s` under modulus `n` and exponent
/// `e`.
pub open spec fn encrypted_chunks(s: Seq<char>, n: nat, e: nat) -> Seq<nat> {
    let chunks = message_chunks(s, chunk_size(n));
    Seq::new(chunks.len(), |i: int| rsa_apply(be_value(chunks[i]), e, n))
}

/// The concatenated big-endian bytes of the decrypted chunk values.
pub open spec fn decrypted_bytes(cs: Seq<nat>, n: nat, d: nat) -> Seq<u8>
    decreases cs.len(),
{
    if cs.len() == 0 {
        seq![]
    } else {
        decrypted_bytes(cs.drop_last(), n, d) + be_bytes(rsa_apply(cs.last(), d, n))
    }
}

/// `b` without its trailing zero bytes.
pub open spec fn strip_zeros(b: Seq<u8>) -> Seq<u8>
    decreases b.len(),
{
    if b.len() > 0 && b.last() == 0 {
        strip_zeros(b.drop_last())
    } else {
        b
    }
}

/// The bytes a decryption of `cs` turns into text.
pub open spec fn decrypted_text_bytes(cs: Seq<nat>, n: nat, d: nat) -> Seq<u8> {
    strip_zeros(decrypted_bytes(cs, n, d))
}

/// The values of a sequence of naturals.
pub open spec fn values(v: Seq<Natural>) -> Seq<nat> {
    v.map_values(|x: Natural| x@)
}

/// `d` is what key derivation picks as private exponent for `e` modulo
/// `phi`: the inverse of `e` in `(0, phi)` when there is one, else zero.
pub open spec fn is_private_exponent(e: int, phi: int, d: int) -> bool {
    &&& phi > 1 && coprime(e, phi) ==> 0 < d < phi && (e * d) % phi == 1
    &&& !coprime(e, phi) ==> d == 0
    &&& phi == 1 ==> d == 0
}

/// `keys` is the key pair that distinct primes `p` and `q` give.
pub open spec fn is_key_pair_of(keys: ((Natural, Natural), (Natural, Natural)), p: nat, q: nat) -> bool {
    let (pk, sk) = keys;
    &&& p != q
    &&& pk.0@ == p * q
    &&& sk.0@ == p * q
    &&& pk.1@ == PUBLIC_EXPONENT
    &&& is_private_exponent(PUBLIC_EXPONENT as int, (p - 1) * (q - 1), sk.1@ as int)
}

/// Relies on `String::from_utf8`: the text the bytes encode, or an error when
/// they are not UTF-8.
#[verifier::external_body]
fn utf8_to_string(bytes: Vec<u8>) -> (r: Option<String>)
    ensures
        r.is_some() == valid_utf8(bytes@),
        r.is_some() ==> r.unwrap()@ == decode_utf8(bytes@),
{
    String::from_utf8(bytes).ok()
}

/// Relies on `rayon::join`: it runs both closures, possibly on two threads,
/// and returns both results.
#[verifier::external_body]
pub(crate) fn generate_prime_pair(bits: usize) -> (r: (Natural, Natural))
    ensures
        probably_prime(r.0@, GENERATION_ROUNDS as nat),
        r.0@ % 2 == 1,
        probably_prime(r.1@, GENERATION_ROUNDS as nat),
        r.1@ % 2 == 1,
{
    rayon::join(|| generate_prime(bits), || generate_prime(bits))
}

/// Raw RSA encryption: `message^e mod n`.
pub fn encrypt(message: Natural, public_key: &(Natural, Natural)) -> (r: Natural)
    requires
        public_key.0@ > 0,
    ensures
        r@ == rsa_apply(message@, public_key.1@, public_key.0@),
{
    modpow(&message, &public_key.1, &public_key.0)
}

/// Raw RSA decryption: `ciphertext^d mod n`.
pub fn decrypt(ciphertext: Natural, private_key: &(Natural, Natural)) -> (r: Natural)
    requires
        private_key.0@ > 0,
    ensures
        r@ == rsa_apply(ciphertext@, private_key.1@, private_key.0@),
{
    modpow(&ciphertext, &private_key.1, &private_key.0)
}

/// Chunks `message` with chunk width `size` and encrypts each chunk, read as
/// a big-endian number, with exponent `e` modulo `n`.
pub(crate) fn encrypt_chunks(message: &str, size: usize, n: &Natural, e: &Natural) -> (r: Vec<
    Natural,
>)
    requires
        size > 0,
        n@ > 0,
        message@.len() + size <= usize::MAX,
    ensures
        r@.len() == message_chunks(message@, size as nat).len(),
        forall|i: int|
            0 <= i < r@.len() ==> #[trigger] r@[i]@ == rsa_apply(
                be_value(message_chunks(message@, size as nat)[i]),
                e@,
                n@,
            ),
{
    let chunks = chunk_message(message, size);
    let mut out: Vec<Natural> = Vec::new();
    let mut i: usize = 0;
    while i < chunks.len()
        invariant
            n@ > 0,
            chunks@.len() == message_chunks(message@, size as nat).len(),
            forall|j: int|
                0 <= j < chunks@.len() ==> #[trigger] chunks@[j]@ == message_chunks(
                    message@,
                    size as nat,
                )[j],
            i <= chunks@.len(),
            out@.len() == i,
            forall|j: int|
                0 <= j < i ==> #[trigger] out@[j]@ == rsa_apply(
                    be_value(message_chunks(message@, size as nat)[j]),
                    e@,
                    n@,
                ),
        decreases chunks@.len() - i,
    {
        let value = from_bytes_be(chunks[i].as_slice());
        out.push(modpow(&value, e, n));
        i = i + 1;
    }
    out
}

/// Decrypts each value with exponent `d` modulo `n`, concatenates the
/// big-endian bytes, drops trailing zero bytes and reads the rest as UTF-8.
pub(crate) fn decrypt_chunks(encrypted: &Vec<Natural>, n: &Natural, d: &Natural) -> (r: Result<
    String,
    DecryptError,
>)
    requires
        n@ > 0,
    ensures
        r.is_ok() == valid_utf8(decrypted_text_bytes(values(encrypted@), n@, d@)),
        r.is_ok() ==> r.unwrap()@ == decode_utf8(decrypted_text_bytes(values(encrypted@), n@, d@)),
{
    let mut bytes: Vec<u8> = Vec::new();
    let mut i: usize = 0;
    while i < encrypted.len()
        invariant
            n@ > 0,
            i <= encrypted@.len(),
            bytes@ == decrypted_bytes(values(encrypted@).take(i as int), n@, d@),
        decreases encrypted@.len() - i,
    {
        let plain = modpow(&encrypted[i], d, n);
        let piece = to_bytes_be(&plain);
        let ghost before = bytes@;
        let mut k: usize = 0;
        while k < piece.len()
            invariant
                k <= piece@.len(),
                bytes@ == before + piece@.take(k as int),
            decreases piece@.len() - k,
        {
            bytes.push(piece[k]);
            k = k + 1;
            proof {
                assert(piece@.take(k as int) =~= piece@.take(k - 1) + seq![piece@[k - 1]]);
            }
        }
        proof {
            let vs = values(encrypted@);
            assert(vs.take(i + 1).drop_last() =~= vs.take(i as int));
            assert(piece@.take(piece@.len() as int) =~= piece@);
        }
        i = i + 1;
    }
    proof {
        assert(values(encrypted@).take(encrypted@.len() as int) =~= values(encrypted@));
    }
    let ghost full = bytes@;
    while bytes.len() > 0 && bytes[bytes.len() - 1] == 0
        invariant
            strip_zeros(bytes@) == strip_zeros(full),
        decreases bytes@.len(),
    {
        let ghost b = bytes@;
        bytes.pop();
        proof {
            assert(bytes@ =~= b.drop_last());
        }
    }
    match utf8_to_string(bytes) {
        Some(text) => Ok(text),
        None => Err(DecryptError::NonUtf8DecodedMessage),
    }
}

/// Encrypts `message` chunk by chunk: the chunk width comes from the modulus
/// `n` of `public_key`, and each chunk, read as a big-endian number, is
/// raised to `e` modulo `n`.
pub fn encrypt_message(message: &str, public_key: &(Natural, Natural)) -> (r: Vec<Natural>)
    requires
        public_key.0@ >= 256,
        message@.len() + chunk_size(public_key.0@) <= usize::MAX,
    ensures
        values(r@) == encrypted_chunks(message@, public_key.0@, public_key.1@),
{
    let size = calculate_chunk_size(&public_key.0);
    proof {
        crate::utils::lemma_chunk_size_positive(public_key.0@);
    }
    let r = encrypt_chunks(message, size, &public_key.0, &public_key.1);
    proof {
        assert(values(r@) =~= encrypted_chunks(message@, public_key.0@, public_key.1@));
    }
    r
}

/// Decrypts each value with the private exponent, joins the big-endian bytes
/// of the results, drops all trailing zero bytes and reads the rest as UTF-8
/// text.
pub fn decrypt_message(encrypted_message: Vec<Natural>, private_key: (Natural, Natural)) -> (r:
    Result<String, DecryptError>)
    requires
        private_key.0@ > 0,
    ensures
        r.is_ok() == valid_utf8(
            decrypted_text_bytes(values(encrypted_message@), private_key.0@, private_key.1@),
        ),
        r.is_ok() ==> r.unwrap()@ == decode_utf8(
            decrypted_text_bytes(values(encrypted_message@), private_key.0@, private_key.1@),
        ),
{
    decrypt_chunks(&encrypted_message, &private_key.0, &private_key.1)
}

/// The key pair of two primes `p` and `q`: modulus `p * q`, public exponent
/// 65537, and as private exponent its inverse modulo `(p - 1)(q - 1)` (zero
/// where there is none). `None` when the primes are equal.
pub fn keys_from_primes(p: Natural, q: Natural) -> (r: Option<
    ((Natural, Natural), (Natural, Natural)),
>)
    requires
        p@ >= 2,
        q@ >= 2,
    ensures
        r.is_none() == (p@ == q@),
        r.is_some() ==> {
            let (pk, sk) = r.unwrap();
            &&& pk.0@ == p@ * q@
            &&& sk.0@ == p@ * q@
            &&& pk.1@ == PUBLIC_EXPONENT
            &&& is_private_exponent(
                PUBLIC_EXPONENT as int,
                (p@ - 1) * (q@ - 1),
                sk.1@ as int,
            )
        },
{
    if p == q {
        return None;
    }
    let n = nat_mul(&p, &q);
    let phi = calculate_totient(&p, &q);
    proof {
        assert((p@ - 1) * (q@ - 1) > 0) by (nonlinear_arith)
            requires
                p@ >= 2,
                q@ >= 2,
        ;
    }
    let e = Natural::from_u64(PUBLIC_EXPONENT);
    let d = mod_inverse(Integer::from_natural(e.clone()), Integer::from_natural(phi));
    let d_mag = d.magnitude;
    proof {
        assert(d_mag@ == d@);
    }
    Some(((n.clone(), e), (n, d_mag)))
}

/// Generates a key pair from two probable primes of `bits / 2` bits each,
/// searched for in parallel. `None` when the two primes are equal (the
/// caller may try again).
pub fn generate_keys(bits: usize) -> (r: Option<((Natural, Natural), (Natural, Natural))>)
    ensures
        r.is_some() ==> exists|p: nat, q: nat|
            probably_prime(p, GENERATION_ROUNDS as nat) && probably_prime(
                q,
                GENERATION_ROUNDS as nat,
            ) && #[trigger] is_key_pair_of(r.unwrap(), p, q),
{
    let (p, q) = generate_prime_pair(bits / 2);
    let ghost pv = p@;
    let ghost qv = q@;
    let r = keys_from_primes(p, q);
    proof {
        if r.is_some() {
            assert(is_key_pair_of(r.unwrap(), pv, qv));
        }
    }
    r
}

/// `x` is `b` followed by zero bytes only.
pub open spec fn zero_extends(x: Seq<u8>, b: Seq<u8>) -> bool {
    &&& x.len() >= b.len()
    &&& x.take(b.len() as int) == b
    &&& forall|t: int| b.len() <= t < x.len() ==> x[t] == 0
}

/// Stripping the trailing zeros of `b` followed by zeros gives `b` back, when
/// `b` itself does not end in zero.
proof fn lemma_strip_zero_extension(x: Seq<u8>, b: Seq<u8>)
    requires
        zero_extends(x, b),
        b.len() == 0 || b.last() != 0,
    ensures
        strip_zeros(x) == b,
    decreases x.len(),
{
    if x.len() == b.len() {
        assert(x =~= b);
    } else {
        assert(x.last() == 0);
        let y = x.drop_last();
        assert(y.take(b.len() as int) =~= x.take(b.len() as int));
        lemma_strip_zero_extension(y, b);
    }
}

/// The bytes of non-null ASCII characters are non-zero and below 128.
proof fn lemma_plain_ascii_byte(c: char)
    requires
        '\0' <= c <= '\u{7f}',
        c != '\0',
    ensures
        (c as u8) != 0,
{
    let x = c as u32;
    assert(x != 0);
    assert(x <= 0x7f && x != 0 ==> (x as u8) != 0) by (bit_vector);
}

/// Decrypting the first `j` encrypted chunks of an ASCII message without
/// null characters gives the message bytes up to `j` chunks, followed by
/// zeros once the message has run out.
proof fn lemma_decrypted_prefix(s: Seq<char>, n: nat, e: nat, d: nat, j: nat)
    requires
        n >= 256,
        is_ascii_chars(s),
        forall|i: int| 0 <= i < s.len() ==> s[i] != '\0',
        forall|m: nat| m < n ==> #[trigger] rsa_apply(rsa_apply(m, e, n), d, n) == m,
        j <= encrypted_chunks(s, n, e).len(),
    ensures
        j * chunk_size(n) <= s.len() ==> decrypted_bytes(
            encrypted_chunks(s, n, e).take(j as int),
            n,
            d,
        ) == message_bytes(s).take((j * chunk_size(n)) as int),
        j * chunk_size(n) >= s.len() ==> zero_extends(
            decrypted_bytes(encrypted_chunks(s, n, e).take(j as int), n, d),
            message_bytes(s),
        ),
    decreases j,
{
    let size = chunk_size(n);
    let bytes = message_bytes(s);
    let vals = encrypted_chunks(s, n, e);
    let len = s.len();
    lemma_chunk_size_positive(n);
    if j == 0 {
        assert(j * size == 0) by (nonlinear_arith)
            requires
                j == 0,
        ;
        assert(vals.take(0) =~= Seq::<nat>::empty());
        assert(bytes.take(0) =~= Seq::<u8>::empty());
        if len == 0 {
            assert(bytes.take(0) =~= bytes);
            assert(decrypted_bytes(vals.take(0), n, d) =~= Seq::<u8>::empty());
            assert(zero_extends(Seq::<u8>::empty(), bytes));
        }
    } else {
        let i = (j - 1) as nat;
        lemma_decrypted_prefix(s, n, e, d, i);
        let before = decrypted_bytes(vals.take(i as int), n, d);
        assert(vals.take(j as int).drop_last() =~= vals.take(i as int));
        let chunk = message_chunks(s, size)[i as int];
        lemma_chunk_shape(s, size, i as int);
        assert forall|t: int| 0 <= t < s.len() implies #[trigger] message_bytes(s)[t] < 128 by {
            crate::utils::lemma_ascii_byte(s[t]);
        }
        lemma_chunks_below_modulus(s, n, i as int);
        assert(rsa_apply(vals[i as int], d, n) == be_value(chunk));
        let dec = decrypted_bytes(vals.take(j as int), n, d);
        let padded = padded_bytes(s, size);
        let at = i * size;
        assert(j * size == at + size) by (nonlinear_arith)
            requires
                j == i + 1,
                at == i * size,
        ;
        assert(chunk[0] == padded[at as int]);
        if at < len {
            lemma_plain_ascii_byte(s[at as int]);
            assert(chunk[0] == s[at as int] as u8);
            lemma_be_round_trip(chunk);
            assert(dec == before + chunk);
            assert(at <= len);
            assert(before == bytes.take(at as int));
            if j * size <= len {
                assert forall|t: int| 0 <= t < size implies chunk[t] == bytes[at + t] by {
                    assert(chunk[t] == padded[at + t]);
                }
                assert(dec =~= bytes.take((j * size) as int));
                if j * size == len {
                    assert(dec.take(len as int) =~= bytes);
                    assert(zero_extends(dec, bytes));
                }
            } else {
                assert forall|t: int| 0 <= t < len - at implies chunk[t] == bytes[at + t] by {
                    assert(chunk[t] == padded[at + t]);
                }
                assert forall|t: int| len - at <= t < size implies chunk[t] == 0 by {
                    assert(chunk[t] == padded[at + t]);
                }
                assert(dec.take(len as int) =~= bytes);
                assert(zero_extends(dec, bytes));
            }
        } else {
            assert forall|t: int| 0 <= t < chunk.len() implies chunk[t] == 0 by {
                assert(chunk[t] == padded[at + t]);
            }
            lemma_be_value_zero(chunk);
            assert(be_bytes(0) =~= seq![0u8]);
            assert(dec == before + seq![0u8]);
            if at == len {
                assert(bytes.take(len as int) =~= bytes);
            }
            assert(zero_extends(before, bytes));
            assert(dec.take(len as int) =~= before.take(len as int));
            assert(zero_extends(dec, bytes));
        }
    }
}

/// Decrypting the encryption of an ASCII message without null characters
/// gives the message back, under keys whose decryption undoes encryption on
/// every number below the modulus. The trailing zero bytes that padding adds
/// are all dropped again, and no byte of the message is zero.
pub proof fn lemma_message_round_trip(s: Seq<char>, n: nat, e: nat, d: nat)
    requires
        n >= 256,
        is_ascii_chars(s),
        forall|i: int| 0 <= i < s.len() ==> s[i] != '\0',
        forall|m: nat| m < n ==> #[trigger] rsa_apply(rsa_apply(m, e, n), d, n) == m,
    ensures
        valid_utf8(decrypted_text_bytes(encrypted_chunks(s, n, e), n, d)),
        decode_utf8(decrypted_text_bytes(encrypted_chunks(s, n, e), n, d)) == s,
{
    let size = chunk_size(n);
    let vals = encrypted_chunks(s, n, e);
    let k = vals.len();
    let bytes = message_bytes(s);
    let padded = padded_bytes(s, size);
    lemma_chunk_size_positive(n);
    crate::utils::lemma_padded_length(s, size);
    assert(k * size == padded.len()) by (nonlinear_arith)
        requires
            k == padded.len() / size,
            padded.len() == size * (padded.len() / size),
    ;
    lemma_decrypted_prefix(s, n, e, d, k);
    assert(vals.take(k as int) =~= vals);
    let full = decrypted_bytes(vals, n, d);
    assert(zero_extends(full, bytes));
    if bytes.len() > 0 {
        lemma_plain_ascii_byte(s[s.len() - 1]);
    }
    lemma_strip_zero_extension(full, bytes);
    vstd::utf8::is_ascii_chars_encode_utf8(s);
    assert(encode_utf8(s) =~= bytes);
    vstd::utf8::encode_utf8_valid_utf8(s);
    vstd::utf8::encode_utf8_decode_utf8(s);
}

/// A key pair made from two distinct primes, with a public exponent that has
/// no factor in common with `(p - 1)(q - 1)`, decrypts what it encrypts: for
/// every `m` below the modulus, decrypting the encryption of `m` gives `m`.
pub proof fn lemma_key_pair_inverts(
    keys: ((Natural, Natural), (Natural, Natural)),
    p: nat,
    q: nat,
    m: nat,
)
    requires
        is_key_pair_of(keys, p, q),
        is_prime(p),
        is_prime(q),
        coprime(PUBLIC_EXPONENT as int, (p - 1) * (q - 1)),
        m < keys.0.0@,
    ensures
        rsa_apply(rsa_apply(m, keys.0.1@, keys.0.0@), keys.1.1@, keys.1.0@) == m,
{
    let (pk, sk) = keys;
    let phi = (p - 1) * (q - 1);
    assert(phi > 1) by (nonlinear_arith)
        requires
            p >= 2,
            q >= 2,
            p != q,
            phi == (p - 1) * (q - 1),
    ;
    let e = pk.1@;
    let d = sk.1@;
    assert((e * d) as int % (((p - 1) * (q - 1)) as int) == 1);
    lemma_rsa_inverts(p, q, e, d, m);
    let n = (p * q) as int;
    assert(n > 0) by (nonlinear_arith)
        requires
            p >= 2,
            q >= 2,
            n == p * q,
    ;
    assert(pow(m as int, e) % n >= 0);
}

/// Under a key pair of two distinct primes whose public exponent has no
/// factor in common with `(p - 1)(q - 1)`, and a modulus of at least 256,
/// decrypting the encryption of an ASCII message without null characters
/// gives the message back.
pub proof fn lemma_key_pair_message_round_trip(
    keys: ((Natural, Natural), (Natural, Natural)),
    p: nat,
    q: nat,
    s: Seq<char>,
)
    requires
        is_key_pair_of(keys, p, q),
        is_prime(p),
        is_prime(q),
        coprime(PUBLIC_EXPONENT as int, (p - 1) * (q - 1)),
        keys.0.0@ >= 256,
        is_ascii_chars(s),
        forall|i: int| 0 <= i < s.len() ==> s[i] != '\0',
    ensures
        valid_utf8(
            decrypted_text_bytes(encrypted_chunks(s, keys.0.0@, keys.0.1@), keys.1.0@, keys.1.1@),
        ),
        decode_utf8(
            decrypted_text_bytes(encrypted_chunks(s, keys.0.0@, keys.0.1@), keys.1.0@, keys.1.1@),
        ) == s,
{
    let n = keys.0.0@;
    let e = keys.0.1@;
    let d = keys.1.1@;
    assert forall|m: nat| m < n implies #[trigger] rsa_apply(rsa_apply(m, e, n), d, n) == m by {
        lemma_key_pair_inverts(keys, p, q, m);
    }
    lemma_message_round_trip(s, n, e, d);
}

} // verus!
