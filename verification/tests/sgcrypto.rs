//! The session engine: alignment, salting, key agreement, AES and HMAC.

use xbox_sg::sgcrypto::{from_secret, Crypto, Salt};

fn foreign_public_key() -> Vec<u8> {
    vec![0x04, 0x1D, 0xB1, 0xE7, 0x94, 0x38, 0x78, 0xB2, 0x8C, 0x77, 0x32, 0x28, 0xEB, 0xDC, 0xFB, 0x05, 0xB9, 0x85, 0xBE, 0x4A, 0x38, 0x6A, 0x55, 0xF5, 0x00, 0x66, 0x23, 0x13, 0x60, 0x78, 0x5F, 0x61, 0xB6, 0x00, 0x38, 0xCA, 0xF1, 0x82, 0xD7, 0x12, 0xD8, 0x6C, 0x8A, 0x28, 0xA0, 0xE7, 0xE2, 0x73, 0x3A, 0x03, 0x91, 0xB1, 0x16, 0x9E, 0xF2, 0x90, 0x5E, 0x4E, 0x21, 0x55, 0x5B, 0x43, 0x2B, 0x26, 0x2D]
}

fn new_crypto() -> Crypto {
    Crypto::new(&foreign_public_key()[..]).unwrap()
}

fn test_secret() -> Vec<u8> {
    (0u8..64).collect()
}

#[test]
fn sgcrypto_alignment_works() {
    let alignment = Crypto::aligned_len(4);
    assert_eq!(alignment, 16);
    let alignment = Crypto::aligned_len(16);
    assert_eq!(alignment, 16);
}

#[test]
fn sgcrypto_prepend_works() {
    let salt = Salt::Prepend(vec![1, 2, 3]);
    let result: Vec<u8> = salt.apply(&vec![4, 5, 6]);
    assert_eq!(result, [1, 2, 3, 4, 5, 6]);
}

#[test]
fn sgcrypto_append_works() {
    let salt = Salt::Append(vec![4, 5, 6]);
    let result = salt.apply(&vec![1, 2, 3]);
    assert_eq!(result, [1, 2, 3, 4, 5, 6]);
}

#[test]
fn sgcrypto_new_crypto_works() {
    let _crypto = new_crypto();
}

#[test]
fn sgcrypto_encrypt_works() {
    let plaintext = String::from("Test").into_bytes();
    let crypto = new_crypto();
    let iv = [0xB0u8; 16];
    let result = crypto.encrypt(&iv[..], &plaintext[..]);
    assert!(!result.is_err());
    let ciphertext = result.unwrap();
    assert_eq!(ciphertext.len(), 16);
    assert_ne!(ciphertext, &[0xA0u8; 16][..]);
}

#[test]
fn sgcrypto_decrypt_works() {
    let plaintext = String::from("Test").into_bytes();
    let crypto = new_crypto();
    let iv = [0xB0u8; 16];
    let enc_result = crypto.encrypt(&iv[..], &plaintext[..]);
    assert!(!enc_result.is_err());
    let ciphertext = enc_result.unwrap();
    let dec_result = crypto.decrypt(&iv[..], &ciphertext[..], plaintext.len());
    assert!(!dec_result.is_err());
    assert_eq!(plaintext, dec_result.unwrap());
}

#[test]
fn sgcrypto_generate_iv_repeats() {
    // The derived IV is a function of the key material and the header
    // block alone: deriving it twice gives the same 16 bytes, and a
    // different header block gives a different IV.  A recorded session
    // secret would pin the exact output bytes; with none to hand, the
    // derivation is checked for determinism and block shape instead.
    let crypto = from_secret(&test_secret()[..]);
    let block = [0x11u8; 16];
    let iv1 = crypto.generate_iv(&block[..]).unwrap();
    let iv2 = crypto.generate_iv(&block[..]).unwrap();
    assert_eq!(iv1, iv2);
    assert_eq!(iv1.len(), 16);
    let other = crypto.generate_iv(&[0x22u8; 16][..]).unwrap();
    assert_ne!(iv1, other);
}

#[test]
fn sgcrypto_sign_works() {
    let plaintext = String::from("Test").into_bytes();
    let crypto = new_crypto();
    let signature = crypto.sign(&plaintext[..]);
    assert_eq!(signature.len(), 32);
    assert_ne!(signature, &[0xA0u8; 32][..]);
}

#[test]
fn sgcrypto_verify_works() {
    let plaintext = String::from("Test").into_bytes();
    let crypto = new_crypto();
    let signature = crypto.sign(&plaintext[..]);
    assert!(!crypto.verify(&plaintext[..], &signature[..]).is_err());
}

#[test]
fn sgcrypto_from_secret_splits_keys() {
    // Loading the same secret twice yields the same behaviour: equal
    // signatures and an encrypt/decrypt round trip across instances.
    let c1 = from_secret(&test_secret()[..]);
    let c2 = from_secret(&test_secret()[..]);
    let data = b"abcdef";
    assert_eq!(c1.sign(&data[..]), c2.sign(&data[..]));
    let iv = [9u8; 16];
    let cipher = c1.encrypt(&iv[..], &data[..]).unwrap();
    assert_eq!(c2.decrypt(&iv[..], &cipher[..], data.len()).unwrap(), &data[..]);
}
