//! RSA keys as structs, and a key holder that encrypts for others and
//! decrypts what was encrypted for it.
use vstd::prelude::*;
use vstd::utf8::{valid_utf8, decode_utf8};
use crate::natural::{Natural, modpow, be_value};
use crate::primality::{probably_prime, GENERATION_ROUNDS};
use crate::rsa::{
    rsa_apply, values, decrypted_text_bytes, is_private_exponent, encrypt_chunks, decrypt_chunks,
    keys_from_primes, generate_prime_pair, DecryptError, PUBLIC_EXPONENT,
};
use crate::utils::{message_chunks, chunk_size, calculate_chunk_size};

verus! {

/// A public key: modulus `n` and public exponent `e`.
#[derive(Debug)]
pub struct PublicKey {
    pub n: Natural,
    pub e: Natural,
}

impl Clone for PublicKey {
    fn clone(&self) -> (r: PublicKey)
        ensures
            r.n@ == self.n@,
            r.e@ == self.e@,
    {
        PublicKey { n: self.n.clone(), e: self.e.clone() }
    }
}

/// A private key: modulus `n` and private exponent `d`.
pub struct PrivateKey {
    n: Natural,
    d: Natural,
}

impl PublicKey {
    /// Encrypts `message` under `public_key`: `message^e mod n`.
    pub fn encrypt(&self, message: &Natural, public_key: &PublicKey) -> (r: Natural)
        requires
            public_key.n@ > 0,
        ensures
            r@ == rsa_apply(message@, public_key.e@, public_key.n@),
    {
        modpow(message, &public_key.e, &public_key.n)
    }
}

impl PrivateKey {
    /// The modulus.
    pub closed spec fn modulus(&self) -> nat {
        self.n@
    }

    /// The private exponent.
    pub closed spec fn exponent(&self) -> nat {
        self.d@
    }

    /// The private key with modulus `n` and exponent `d`.
    pub fn new(n: Natural, d: Natural) -> (r: PrivateKey)
        ensures
            r.modulus() == n@,
            r.exponent() == d@,
    {
        PrivateKey { n, d }
    }

    /// Decrypts `ciphertext`: `ciphertext^d mod n`.
    pub fn decrypt(&self, ciphertext: &Natural) -> (r: Natural)
        requires
            self.modulus() > 0,
        ensures
            r@ == rsa_apply(ciphertext@, self.exponent(), self.modulus()),
    {
        modpow(ciphertext, &self.d, &self.n)
    }

    /// The chunk width, in bytes, for this key's modulus.
    pub fn get_chunk_size(&self) -> (r: usize)
        ensures
            chunk_size(self.modulus()) <= usize::MAX ==> r as nat == chunk_size(self.modulus()),
    {
        calculate_chunk_size(&self.n)
    }
}

/// A key holder: a public key to hand out and the matching private key.
pub struct RSA {
    pub public_key: PublicKey,
    private_key: PrivateKey,
}

impl RSA {
    /// The public key.
    pub closed spec fn public(&self) -> PublicKey {
        self.public_key
    }

    /// The private key.
    pub closed spec fn private(&self) -> PrivateKey {
        self.private_key
    }

    /// A key holder with a fresh key pair from two probable primes of
    /// `bits / 2` bits. `None` when the two primes are equal (the caller may
    /// try again).
    pub fn new(bits: usize) -> (r: Option<RSA>)
        ensures
            r is Some ==> exists|p: nat, q: nat|
                #![trigger probably_prime(p, GENERATION_ROUNDS as nat), probably_prime(q, GENERATION_ROUNDS as nat)]
                {
                    let h = r.unwrap();
                    &&& p != q
                    &&& probably_prime(p, GENERATION_ROUNDS as nat)
                    &&& probably_prime(q, GENERATION_ROUNDS as nat)
                    &&& h.public().n@ == p * q
                    &&& h.private().modulus() == p * q
                    &&& h.public().e@ == PUBLIC_EXPONENT
                    &&& is_private_exponent(
                        PUBLIC_EXPONENT as int,
                        (p - 1) * (q - 1),
                        h.private().exponent() as int,
                    )
                },
    {
        let (p, q) = generate_prime_pair(bits / 2);
        let ghost pv = p@;
        let ghost qv = q@;
        match keys_from_primes(p, q) {
            Some(((n, e), (n2, d))) => {
                let r = RSA {
                    public_key: PublicKey { n, e },
                    private_key: PrivateKey::new(n2, d),
                };
                proof {
                    assert(probably_prime(pv, GENERATION_ROUNDS as nat));
                    assert(probably_prime(qv, GENERATION_ROUNDS as nat));
                }
                Some(r)
            },
            None => None,
        }
    }

    /// A copy of the public key to hand out.
    pub fn get_public_key(&self) -> (r: PublicKey)
        ensures
            r.n@ == self.public().n@,
            r.e@ == self.public().e@,
    {
        self.public_key.clone()
    }

    /// Encrypts `message` for the holder of `public_key`: chunked with the
    /// chunk width of that key's modulus `n`, each chunk raised to `e`
    /// modulo `n`.
    pub fn encrypt_message(&self, message: &str, public_key: PublicKey) -> (r: Vec<Natural>)
        requires
            public_key.n@ >= 256,
            message@.len() + chunk_size(public_key.n@) <= usize::MAX,
        ensures
            r@.len() == message_chunks(message@, chunk_size(public_key.n@)).len(),
            forall|i: int|
                0 <= i < r@.len() ==> #[trigger] r@[i]@ == rsa_apply(
                    be_value(message_chunks(message@, chunk_size(public_key.n@))[i]),
                    public_key.e@,
                    public_key.n@,
                ),
    {
        let size = calculate_chunk_size(&public_key.n);
        proof {
            crate::utils::lemma_chunk_size_positive(public_key.n@);
        }
        encrypt_chunks(message, size, &public_key.n, &public_key.e)
    }

    /// Decrypts a message encrypted for this holder: each value decrypted,
    /// the big-endian bytes joined, trailing zero bytes dropped, and the rest
    /// read as UTF-8 text.
    pub fn decrypt_message(&self, encrypted_message: Vec<Natural>) -> (r: Result<
        String,
        DecryptError,
    >)
        requires
            self.private().modulus() > 0,
        ensures
            r.is_ok() == valid_utf8(
                decrypted_text_bytes(
                    values(encrypted_message@),
                    self.private().modulus(),
                    self.private().exponent(),
                ),
            ),
            r.is_ok() ==> r.unwrap()@ == decode_utf8(
                decrypted_text_bytes(
                    values(encrypted_message@),
                    self.private().modulus(),
                    self.private().exponent(),
                ),
            ),
    {
        decrypt_chunks(&encrypted_message, &self.private_key.n, &self.private_key.d)
    }
}

} // verus!
