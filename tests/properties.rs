use sop_kode::keys::{PrivateKey, PublicKey, RSA};
use sop_kode::math::{binary_extended_gcd, calculate_totient, mod_inverse};
use sop_kode::natural::{Integer, Natural};
use sop_kode::primality::{generate_prime, miller_rabin, search_prime};
use sop_kode::rsa::{
    decrypt, decrypt_message, encrypt, encrypt_message, keys_from_primes, DecryptError,
};
use sop_kode::utils::{base_n_to_base10, calculate_chunk_size, chunk_message};

fn natural(v: u64) -> Natural {
    Natural::from_u64(v)
}

fn integer(v: i64) -> Integer {
    Integer::from_i64(v)
}

fn value(i: &Integer) -> i128 {
    let mut v: i128 = 0;
    for b in i.magnitude.to_be_bytes() {
        v = v * 256 + b as i128;
    }
    if i.negative {
        -v
    } else {
        v
    }
}

/// The textbook key of p = 61, q = 53: n = 3233, e = 65537, d = 2753.
fn small_keys() -> ((Natural, Natural), (Natural, Natural)) {
    keys_from_primes(natural(61), natural(53)).unwrap()
}

#[test]
fn small_key_pair_is_the_textbook_one() {
    let (public_key, private_key) = small_keys();
    assert_eq!(public_key.0, natural(3233));
    assert_eq!(public_key.1, natural(65537));
    assert_eq!(private_key.0, natural(3233));
    assert_eq!(private_key.1, natural(2753));
}

#[test]
fn equal_primes_give_no_key_pair() {
    assert!(keys_from_primes(natural(61), natural(61)).is_none());
}

#[test]
fn toy_key_encrypts_and_decrypts() {
    assert_eq!(encrypt(natural(7), &(natural(33), natural(3))), natural(13));
    assert_eq!(decrypt(natural(13), &(natural(33), natural(7))), natural(7));
}

#[test]
fn mod_inverse_of_seven_modulo_twenty_six() {
    assert_eq!(mod_inverse(integer(7), integer(26)), integer(15));
}

#[test]
fn mod_inverse_lies_in_range_and_inverts() {
    for m in 2i64..60 {
        for a in -70i64..70 {
            let x = mod_inverse(integer(a), integer(m));
            let mut g = 1;
            for d in 2..=m {
                if a.rem_euclid(d) == 0 && m % d == 0 {
                    g = d;
                }
            }
            if g == 1 {
                let found = (0..m).find(|x| (a * x).rem_euclid(m) == 1).unwrap();
                assert_eq!(x, integer(found));
            } else {
                assert_eq!(x, integer(0));
            }
        }
    }
}

#[test]
fn mod_inverse_modulo_one_is_zero() {
    assert_eq!(mod_inverse(integer(5), integer(1)), integer(0));
}

#[test]
fn extended_gcd_gives_bezout_coefficients() {
    let cases: Vec<(i64, i64, i64)> = vec![
        (240, 46, 2),
        (-240, 46, 2),
        (240, -46, 2),
        (0, 9, 9),
        (9, 0, 9),
        (0, -9, 9),
        (0, 0, 0),
        (17, 3120, 1),
        (1024, 96, 32),
        (7, 7, 7),
    ];
    for (a, b, g) in cases {
        let mut x = integer(0);
        let mut y = integer(0);
        let r = binary_extended_gcd(&integer(a), &integer(b), &mut x, &mut y);
        assert_eq!(r, integer(g));
        assert_eq!(a as i128 * value(&x) + b as i128 * value(&y), g as i128);
    }
}

#[test]
fn totient_of_sixty_one_and_fifty_three() {
    assert_eq!(calculate_totient(&natural(61), &natural(53)), natural(3120));
}

#[test]
fn miller_rabin_small_cases() {
    assert!(!miller_rabin(&natural(0), 5));
    assert!(!miller_rabin(&natural(1), 5));
    assert!(miller_rabin(&natural(2), 5));
    assert!(miller_rabin(&natural(97), 5));
    assert!(!miller_rabin(&natural(561), 5));
    assert!(!miller_rabin(&natural(101 * 103), 5));
    assert!(miller_rabin(&natural(101), 20));
    assert!(miller_rabin(&natural(2_305_843_009_213_693_951), 20));
    assert!(!miller_rabin(&natural(2_305_843_009_213_693_953), 20));
}

#[test]
fn accepted_numbers_are_two_or_odd() {
    for n in 0u64..3000 {
        if miller_rabin(&natural(n), 20) {
            assert!(n == 2 || (n % 2 == 1 && n > 2));
        }
    }
}

#[test]
fn a_strong_pseudoprime_needs_more_rounds() {
    // 6763 * 10627 * 29947 passes the witnesses 2, 3, 5, 7 and 11, not 13.
    let n = natural(2_152_302_898_747);
    assert!(miller_rabin(&n, 5));
    assert!(!miller_rabin(&n, 6));
}

#[test]
fn every_prime_passes() {
    for n in 2u64..5000 {
        let prime = (2..n).all(|d| n % d != 0);
        if prime {
            assert!(miller_rabin(&natural(n), 30));
        }
    }
}

#[test]
fn multiples_of_small_primes_are_rejected() {
    for p in [2u64, 3, 5, 7, 11, 13, 47, 89, 97] {
        for m in 2u64..200 {
            assert!(!miller_rabin(&natural(p * m), 1));
        }
    }
}

#[test]
fn search_starts_at_the_next_odd_number() {
    assert_eq!(search_prime(&natural(90)), natural(97));
    assert_eq!(search_prime(&natural(1)), natural(3));
    assert_eq!(search_prime(&natural(113)), natural(113));
}

#[test]
fn generated_prime_passes_many_rounds() {
    let p = generate_prime(64);
    assert!(miller_rabin(&p, 20));
    assert!(!p.to_be_bytes().is_empty());
    assert_eq!(p.to_be_bytes().last().unwrap() % 2, 1);
}

#[test]
fn chunk_size_is_bit_length_over_eight() {
    assert_eq!(calculate_chunk_size(&natural(3233)), 1);
    assert_eq!(calculate_chunk_size(&natural(65537)), 2);
    assert_eq!(calculate_chunk_size(&natural(255)), 1);
    assert_eq!(calculate_chunk_size(&natural(127)), 0);
    assert_eq!(calculate_chunk_size(&natural(1 << 40)), 5);
}

#[test]
fn aligned_message_gets_no_padding() {
    assert_eq!(chunk_message("Hello", 5), vec![vec![72, 101, 108, 108, 111]]);
    assert_eq!(chunk_message("ab", 2), vec![vec![97, 98]]);
    assert_eq!(chunk_message("", 3), Vec::<Vec<u8>>::new());
    assert_eq!(chunk_message("abc", 2), vec![vec![97, 98], vec![99, 0]]);
}

#[test]
fn chunks_read_below_the_modulus() {
    let n = natural(65537);
    let size = calculate_chunk_size(&n);
    for chunk in chunk_message("Hello, world! ~~~", size) {
        let value = Natural::from_be_bytes(&chunk);
        let bytes = value.to_be_bytes();
        let mut v: u64 = 0;
        for b in bytes {
            v = v * 256 + b as u64;
        }
        assert!(v < 65537);
    }
}

#[test]
fn byte_conversions_round_trip() {
    assert_eq!(Natural::from_be_bytes(&[1, 0]), natural(256));
    assert_eq!(natural(1125).to_be_bytes(), vec![4, 101]);
    assert_eq!(natural(0).to_be_bytes(), vec![0]);
    assert_eq!(Natural::from_be_bytes(&[]), natural(0));
}

#[test]
fn base_conversion_skips_minus_one_digits() {
    assert_eq!(base_n_to_base10(&vec![1, -1, 3], 10), 103);
    assert_eq!(base_n_to_base10(&vec![], 7), 0);
    assert_eq!(base_n_to_base10(&vec![1, 1, 2], 3), 14);
}

#[test]
fn small_key_round_trips_every_value() {
    let (public_key, private_key) = small_keys();
    for m in 0u64..3233 {
        let c = encrypt(natural(m), &public_key);
        assert_eq!(decrypt(c, &private_key), natural(m));
    }
}

#[test]
fn small_key_round_trips_a_message() {
    let (public_key, private_key) = small_keys();
    let message = "Hello, world!";
    let encrypted = encrypt_message(message, &public_key);
    assert_eq!(encrypted.len(), 13);
    assert_eq!(encrypted[0], encrypt(natural(72), &public_key));
    assert_eq!(decrypt_message(encrypted, private_key).unwrap(), message);
}

#[test]
fn empty_message_round_trips() {
    let (public_key, private_key) = small_keys();
    let encrypted = encrypt_message("", &public_key);
    assert!(encrypted.is_empty());
    assert_eq!(decrypt_message(encrypted, private_key).unwrap(), "");
}

#[test]
fn decrypting_to_invalid_utf8_is_an_error() {
    let private_key = (natural(1000), natural(1));
    let result = decrypt_message(vec![natural(200)], private_key);
    assert_eq!(result, Err(DecryptError::NonUtf8DecodedMessage));
}

#[test]
fn trailing_zero_bytes_are_stripped() {
    let private_key = (natural(1000), natural(1));
    let result = decrypt_message(vec![natural(72), natural(0), natural(105), natural(0), natural(0)], private_key);
    assert_eq!(result.unwrap(), "H\u{0}i");
}

#[test]
fn key_structs_encrypt_and_decrypt() {
    let public_key = PublicKey { n: natural(3233), e: natural(65537) };
    let private_key = PrivateKey::new(natural(3233), natural(2753));
    let c = public_key.encrypt(&natural(65), &public_key);
    assert_eq!(c, natural(2790));
    assert_eq!(private_key.decrypt(&c), natural(65));
    assert_eq!(private_key.get_chunk_size(), 1);
}

#[test]
fn key_holder_decrypts_what_was_encrypted_for_it() {
    let holder = RSA::new(512).unwrap();
    let message = "This is a test message.";
    let encrypted = holder.encrypt_message(message, holder.get_public_key());
    assert_eq!(holder.decrypt_message(encrypted).unwrap(), message);
}

#[test]
fn chunk_width_comes_from_the_recipient_key() {
    let holder = RSA::new(64).unwrap();
    let recipient = PublicKey { n: natural((1 << 24) + 1), e: natural(1) };
    let encrypted = holder.encrypt_message("a", recipient);
    assert_eq!(encrypted, vec![natural(97 << 16)]);
}

#[test]
fn two_holders_exchange_a_message() {
    let alice = RSA::new(512).unwrap();
    let bob = RSA::new(768).unwrap();
    let message = "This is a test message.";
    let encrypted = alice.encrypt_message(message, bob.get_public_key());
    assert_eq!(bob.decrypt_message(encrypted).unwrap(), message);
}

#[test]
fn search_ends_above_a_prime_gap() {
    // 1328 is followed by composites up to the prime 1361.
    assert_eq!(search_prime(&natural(1328)), natural(1361));
}

#[test]
fn base_conversion_sums_powers_without_horner_overflow() {
    let big = (1i64 << 61) - 1;
    assert_eq!(base_n_to_base10(&vec![big, 2, -10], 2), i64::MAX - 9);
    assert_eq!(base_n_to_base10(&vec![-1, 5], i64::MAX), 5);
}
