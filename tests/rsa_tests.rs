use sop_kode::math::mod_inverse;
use sop_kode::natural::{Integer, Natural};
use sop_kode::primality::miller_rabin;
use sop_kode::rsa::{decrypt, decrypt_message, encrypt_message, generate_keys};
use sop_kode::utils::{base_n_to_base10, chunk_message};

fn natural(v: u64) -> Natural {
    Natural::from_u64(v)
}

#[test]
fn returns_true_for_prime_number() {
    let prime = natural(13);
    assert!(miller_rabin(&prime, 100));
}

#[test]
fn returns_false_for_composite_number() {
    let composite = natural(15);
    assert!(!miller_rabin(&composite, 5));
}

#[test]
fn mod_inverse_returns_correct_value_for_positive_inputs() {
    assert_eq!(mod_inverse(Integer::from_i64(7), Integer::from_i64(26)), Integer::from_i64(15));
}

#[test]
fn mod_inverse_returns_correct_value_for_negative_inputs() {
    assert_eq!(mod_inverse(Integer::from_i64(-7), Integer::from_i64(26)), Integer::from_i64(11));
}

#[test]
fn mod_inverse_returns_zero_for_non_coprime_inputs() {
    assert_eq!(mod_inverse(Integer::from_i64(6), Integer::from_i64(26)), Integer::from_i64(0));
}

#[test]
fn mod_inverse_returns_one_for_coprime_inputs_equal_to_one() {
    assert_eq!(mod_inverse(Integer::from_i64(1), Integer::from_i64(29)), Integer::from_i64(1));
}

#[test]
fn base_n_to_base10_returns_correct_value_for_base_2() {
    assert_eq!(base_n_to_base10(&vec![1, 0, 1], 2), 5);
}

#[test]
fn base_n_to_base10_returns_correct_value_for_base_10() {
    assert_eq!(base_n_to_base10(&vec![1, 2, 3], 10), 123);
}

#[test]
fn base_n_to_base10_returns_correct_value_for_base_16() {
    assert_eq!(base_n_to_base10(&vec![1, 2, 3], 16), 291);
}

#[test]
fn base_n_to_base10_returns_correct_value_for_base_28() {
    assert_eq!(base_n_to_base10(&vec![1, 0], 28), 28);
}

#[test]
fn decrypt_returns_correct_value() {
    let ciphertext = natural(13);
    let private_key = (natural(33), natural(7));
    assert_eq!(decrypt(ciphertext, &private_key), natural(7));
}

#[test]
fn returns_correct_chunks() {
    let message = "Hello, world!";
    let chunk_size = 5;
    let expected_chunks: Vec<Vec<u8>> = vec![
        vec![72, 101, 108, 108, 111],
        vec![44, 32, 119, 111, 114],
        vec![108, 100, 33, 0, 0],
    ];

    assert_eq!(chunk_message(message, chunk_size), expected_chunks);
}

#[test]
fn returns_correct_chunks_for_chunk_size_2() {
    let message = "Hello, world!";
    let chunk_size = 2;
    let expected_chunks: Vec<Vec<u8>> = vec![
        vec![72, 101],
        vec![108, 108],
        vec![111, 44],
        vec![32, 119],
        vec![111, 114],
        vec![108, 100],
        vec![33, 0],
    ];

    assert_eq!(chunk_message(message, chunk_size), expected_chunks);
}

#[test]
fn encrypt_and_decrypt_short_message() {
    let (public_key, private_key) = generate_keys(1024).unwrap();
    let message = "Hello";

    let encrypted_message = encrypt_message(message, &public_key.clone());
    let decrypted_message = decrypt_message(encrypted_message, private_key).unwrap();

    assert_eq!(message, decrypted_message);
}

#[test]
fn encrypt_and_decrypt_long_message() {
    let (public_key, private_key) = generate_keys(1024).unwrap();
    let message = "This is a very long message that exceeds the chunk size.";

    let encrypted_message = encrypt_message(message, &public_key.clone());
    let decrypted_message = decrypt_message(encrypted_message, private_key).unwrap();

    assert_eq!(message, decrypted_message);
}

#[test]
fn encrypt_and_decrypt_with_small_key() {
    let (public_key, private_key) = generate_keys(512).unwrap();
    let message = "This is a test message.";

    let encrypted_message = encrypt_message(message, &public_key.clone());
    let decrypted_message = decrypt_message(encrypted_message, private_key).unwrap();

    assert_eq!(message, decrypted_message);
}

#[test]
fn encrypt_and_decrypt_with_large_key() {
    let (public_key, private_key) = generate_keys(2048).unwrap();
    let message = "This is a test message.";

    let encrypted_message = encrypt_message(message, &public_key.clone());
    let decrypted_message = decrypt_message(encrypted_message, private_key).unwrap();

    assert_eq!(message, decrypted_message);
}

#[test]
fn encrypt_and_decrypt_very_long_message() {
    let (public_key, private_key) = generate_keys(1024).unwrap();
    let message = "This is a very long message. It is so long that it exceeds the chunk size many times over. \
               In fact, it is so long that it might even be considered a small book or a short novel. \
               It contains many characters, words, sentences, and paragraphs, and it goes on and on and on. \
               But despite its length, it is still just a single message, and it should be encrypted and decrypted correctly.";

    let encrypted_message = encrypt_message(message, &public_key.clone());
    let decrypted_message = decrypt_message(encrypted_message, private_key).unwrap();

    assert_eq!(message, decrypted_message);
}
