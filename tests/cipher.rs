use shift_cipher::caesar::{decrypt, encrypt};

#[test]
fn encrypt_shifts_and_lowercases_letters() {
    assert_eq!(encrypt("Hello, World!", 3), "khoor, zruog!");
}

#[test]
fn encrypt_wraps_past_z() {
    assert_eq!(encrypt("xyz", 3), "abc");
    assert_eq!(encrypt("abc", 25), "zab");
}

#[test]
fn encrypt_keeps_non_letters_in_place() {
    assert_eq!(encrypt("a1 b!", 3), "d1 e!");
    assert_eq!(decrypt("d1 e!", 3), "a1 b!");
    assert_eq!(encrypt("é-ü 42", 9), "é-ü 42");
}

#[test]
fn encrypt_of_empty_text_is_empty() {
    assert_eq!(encrypt("", 5), "");
    assert_eq!(decrypt("", 5), "");
}

#[test]
fn negative_and_large_shifts_reduce_modulo_26() {
    assert_eq!(encrypt("abc", -1), "zab");
    assert_eq!(encrypt("abc", -27), "zab");
    assert_eq!(encrypt("abc", 27), "bcd");
    assert_eq!(encrypt("abc", 26), "abc");
}

#[test]
fn extreme_shifts_do_not_overflow() {
    assert_eq!(encrypt("a", i32::MIN), "c");
    assert_eq!(decrypt("a", i32::MIN), "y");
    assert_eq!(encrypt("a", i32::MAX), "x");
    assert_eq!(decrypt("a", i32::MAX), "d");
}

#[test]
fn decrypt_inverts_encrypt() {
    let text = "Attack at Dawn, 0600 hours!";
    for k in [-40, -3, 0, 7, 11, 25, 26, 100] {
        assert_eq!(decrypt(&encrypt(text, k), k), "attack at dawn, 0600 hours!");
    }
}

#[test]
fn shifts_26_apart_agree() {
    let text = "The Quick Brown Fox jumps over 13 lazy dogs.";
    for k in [-30, -1, 0, 4, 19, 25] {
        assert_eq!(encrypt(text, k), encrypt(text, k + 26));
    }
}
