use base64::engine::general_purpose::STANDARD;
use base64::Engine;
use passlocal::crypto::{generate_salt, verify_password, CryptoError, CryptoManager};

fn manager() -> CryptoManager {
    let salt = generate_salt();
    assert_eq!(salt.len(), 16);
    CryptoManager::new("hunter2", salt.as_slice()).expect("key derivation")
}

#[test]
fn encrypt_decrypt_round_trip() {
    let crypto = manager();
    let ciphertext = crypto.encrypt("some secret text").expect("encrypt");
    let plain = crypto.decrypt(&ciphertext).expect("decrypt");
    assert_eq!(plain, "some secret text");
}

#[test]
fn encrypt_is_randomized_but_both_decrypt() {
    let crypto = manager();
    let c1 = crypto.encrypt("same input").expect("encrypt");
    let c2 = crypto.encrypt("same input").expect("encrypt");
    assert_ne!(c1, c2);
    assert_eq!(crypto.decrypt(&c1).expect("decrypt"), "same input");
    assert_eq!(crypto.decrypt(&c2).expect("decrypt"), "same input");
}

#[test]
fn encrypt_changes_its_input() {
    let crypto = manager();
    let ciphertext = crypto.encrypt("visible").expect("encrypt");
    assert_ne!(ciphertext, "visible");
    let combined = STANDARD.decode(&ciphertext).expect("ciphertext is base64");
    assert!(combined.len() > 12 + "visible".len());
}

#[test]
fn tampered_ciphertext_is_rejected() {
    let crypto = manager();
    let ciphertext = crypto.encrypt("integrity matters").expect("encrypt");
    let combined = STANDARD.decode(&ciphertext).expect("base64");
    for i in 0..combined.len() {
        let mut flipped = combined.clone();
        flipped[i] ^= 0x01;
        let tampered = STANDARD.encode(&flipped);
        match crypto.decrypt(&tampered) {
            Err(CryptoError::DecryptionFailed) => {}
            other => panic!("byte {} flip not rejected: {:?}", i, other),
        }
    }
}

#[test]
fn decrypt_rejects_malformed_input() {
    let crypto = manager();
    assert_eq!(
        crypto.decrypt("@@@not-base64@@@"),
        Err(CryptoError::InvalidFormat)
    );
    let short = STANDARD.encode([1u8, 2, 3]);
    assert_eq!(crypto.decrypt(&short), Err(CryptoError::InvalidFormat));
}

#[test]
fn same_password_and_salt_derive_the_same_key() {
    let salt = generate_salt();
    let a = CryptoManager::new("pw", salt.as_slice()).expect("derive");
    let b = CryptoManager::new("pw", salt.as_slice()).expect("derive");
    let c = a.encrypt("cross check").expect("encrypt");
    assert_eq!(b.decrypt(&c).expect("decrypt"), "cross check");
}

#[test]
fn derivation_rejects_out_of_range_salt() {
    assert!(CryptoManager::new("pw", &[1u8, 2, 3]).is_err());
    assert!(CryptoManager::new("pw", &[7u8; 64]).is_err());
}

#[test]
fn verify_password_accepts_right_and_rejects_wrong() {
    let salt = generate_salt();
    let crypto = CryptoManager::new("right", salt.as_slice()).expect("derive");
    let test_package = crypto.encrypt("passlocal_test").expect("encrypt");
    assert!(verify_password("right", salt.as_slice(), &test_package));
    assert!(!verify_password("wrong", salt.as_slice(), &test_package));
}

#[test]
fn different_salts_derive_different_keys() {
    let salt_a = vec![1u8; 16];
    let salt_b = vec![2u8; 16];
    let a = CryptoManager::new("pw", salt_a.as_slice()).expect("derive");
    let b = CryptoManager::new("pw", salt_b.as_slice()).expect("derive");
    let c = a.encrypt("cross check").expect("encrypt");
    assert!(matches!(b.decrypt(&c), Err(CryptoError::DecryptionFailed)));
}

#[test]
fn derivation_rejects_tiny_salt_without_panicking() {
    assert!(CryptoManager::new("pw", &[]).is_err());
    assert!(CryptoManager::new("pw", &[1u8]).is_err());
    assert!(CryptoManager::new("pw", &[1u8, 2]).is_err());
}
