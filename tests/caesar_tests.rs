use sop_kode::caesar::caesar_shift;

fn latin() -> Vec<&'static str> {
    vec![
        "A", "B", "C", "D", "E", "F", "G", "H", "I", "J", "K", "L", "M", "N", "O", "P", "Q", "R",
        "S", "T", "U", "V", "W", "X", "Y", "Z",
    ]
}

#[test]
fn caesar_shift_encrypts_correctly() {
    let plaintext = "HELLO";
    let encrypted = caesar_shift(plaintext, 3, latin());
    assert_eq!(encrypted, "KHOOR");
}

#[test]
fn caesar_shift_handles_non_alphabet_characters() {
    let plaintext = "HELLO WORLD";
    let encrypted = caesar_shift(plaintext, 3, latin());
    assert_eq!(encrypted, "KHOORZRUOG");
}

#[test]
fn caesar_shift_handles_empty_string() {
    let plaintext = "";
    let encrypted = caesar_shift(plaintext, 3, latin());
    assert_eq!(encrypted, "");
}

#[test]
fn caesar_shift_handles_zero_shift() {
    let plaintext = "HELLO";
    let encrypted = caesar_shift(plaintext, 0, latin());
    assert_eq!(encrypted, "HELLO");
}

#[test]
fn caesar_shift_wraps_around_a_danish_alphabet() {
    let alphabet = vec![
        "A", "B", "C", "D", "E", "F", "G", "H", "I", "J", "K", "L", "M", "N", "O", "P", "Q", "R",
        "S", "T", "U", "V", "W", "X", "Y", "Z", "Æ", "Ø", "Å",
    ];
    assert_eq!(caesar_shift("METTE", 3, alphabet.clone()), "PHWWH");
    assert_eq!(caesar_shift("ÅZ", 2, alphabet.clone()), "BØ");
    assert_eq!(caesar_shift("A", 255, alphabet), "X");
}
