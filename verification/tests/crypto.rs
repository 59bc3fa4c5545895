//! The plain PKCS#7 engine, exercised end to end.

use xbox_sg::crypto::{Crypto, Salt};

fn foreign_public_key() -> Vec<u8> {
    vec![0x04, 0x1D, 0xB1, 0xE7, 0x94, 0x38, 0x78, 0xB2, 0x8C, 0x77, 0x32, 0x28, 0xEB, 0xDC, 0xFB, 0x05, 0xB9, 0x85, 0xBE, 0x4A, 0x38, 0x6A, 0x55, 0xF5, 0x00, 0x66, 0x23, 0x13, 0x60, 0x78, 0x5F, 0x61, 0xB6, 0x00, 0x38, 0xCA, 0xF1, 0x82, 0xD7, 0x12, 0xD8, 0x6C, 0x8A, 0x28, 0xA0, 0xE7, 0xE2, 0x73, 0x3A, 0x03, 0x91, 0xB1, 0x16, 0x9E, 0xF2, 0x90, 0x5E, 0x4E, 0x21, 0x55, 0x5B, 0x43, 0x2B, 0x26, 0x2D]
}

fn new_crypto() -> Crypto {
    Crypto::new(&foreign_public_key()[..]).unwrap()
}

#[test]
fn crypto_alignment_works() {
    let alignment = Crypto::aligned_len(&[0u8; 4][..]);
    assert_eq!(alignment, 16);
    let alignment = Crypto::aligned_len(&[0u8; 16][..]);
    assert_eq!(alignment, 32);
}

#[test]
fn crypto_prepend_works() {
    let salt = Salt::Prepend(vec![1, 2, 3]);
    let result: Vec<u8> = salt.apply(&vec![4, 5, 6]);
    assert_eq!(result, [1, 2, 3, 4, 5, 6]);
}

#[test]
fn crypto_append_works() {
    let salt = Salt::Append(vec![4, 5, 6]);
    let result = salt.apply(&vec![1, 2, 3]);
    assert_eq!(result, [1, 2, 3, 4, 5, 6]);
}

#[test]
fn crypto_new_crypto_works() {
    let _crypto = new_crypto();
}

#[test]
fn crypto_encrypt_works() {
    let plaintext = String::from("Test").into_bytes();
    let crypto = new_crypto();
    let iv = [0xB0u8; 16];
    let ciphertext = crypto.encrypt(&iv[..], &plaintext[..]);
    assert_eq!(ciphertext.len(), 16);
    assert_ne!(ciphertext, &[0xA0u8; 16][..]);
}

#[test]
fn crypto_decrypt_works() {
    let plaintext = String::from("Test").into_bytes();
    let crypto = new_crypto();
    let iv = [0xB0u8; 16];
    let ciphertext = crypto.encrypt(&iv[..], &plaintext[..]);
    let new_plaintext = crypto.decrypt(&iv[..], &ciphertext[..]).unwrap();
    assert_eq!(plaintext, new_plaintext);
}

#[test]
fn crypto_sign_works() {
    let plaintext = String::from("Test").into_bytes();
    let crypto = new_crypto();
    let signature = crypto.sign(&plaintext[..]);
    assert_eq!(signature.len(), 32);
    assert_ne!(signature, &[0xA0u8; 32][..]);
}

#[test]
fn crypto_verify_works() {
    let plaintext = String::from("Test").into_bytes();
    let crypto = new_crypto();
    let signature = crypto.sign(&plaintext[..]);
    assert!(crypto.verify(&plaintext[..], &signature[..]));
}
