#![allow(non_snake_case)]
use lkh::algorithm::Algorithm;
use std::collections::HashMap;

#[test]
fn LKH_test_encrypt() {
    let a = Algorithm::AesGcm256;
    let key = vec![0; a.key_len()];
    let plaintext = b"Hello, World!";
    let aad = b"Additional Data";
    let (iv, tag, ciphertext) = a.encrypt(&key, plaintext, aad).unwrap();
    println!("IV: {:x?}", iv);
    println!("Tag: {:x?}", tag);
    println!("Ciphertext: {:x?}", ciphertext);
}

#[test]
fn LKH_test_encrypt_decrypt() {
    let a = Algorithm::AesGcm256;
    let key = vec![0; a.key_len()];
    let plaintext = b"Hello, World!";
    let aad = b"Additional Data";
    let (iv, tag, ciphertext) = a.encrypt(&key, plaintext, aad).unwrap();
    let decrypted = a
        .decrypt(&key, &iv, aad, &ciphertext, &tag)
        .expect("Unable to decrypt");
    assert_eq!(plaintext.to_vec(), decrypted);
    println!("Plaintext: {:x?}", plaintext);
    println!("Decrypted: {:x?}", decrypted);
}

#[test]
fn algorithm_test_encrypt() {
    let a = Algorithm::AesGcm256;
    let key = vec![0; a.key_len()];
    let plaintext = b"Hello, World!";
    let aad = b"Additional Data";
    let (iv, tag, ciphertext) = a.encrypt(&key, plaintext, aad).unwrap();
    println!("IV: {:x?}", iv);
    println!("Tag: {:x?}", tag);
    println!("Ciphertext: {:x?}", ciphertext);
}

#[test]
fn algorithm_test_encrypt_decrypt() {
    let a = Algorithm::AesGcm256;
    let key = vec![0; a.key_len()];
    let plaintext = b"Hello, World!";
    let aad = b"Additional Data";
    let (iv, tag, ciphertext) = a.encrypt(&key, plaintext, aad).unwrap();
    let decrypted = a
        .decrypt(&key, &iv, aad, &ciphertext, &tag)
        .expect("Unable to decrypt");
    assert_eq!(plaintext.to_vec(), decrypted);
    println!("Plaintext: {:x?}", plaintext);
    println!("Decrypted: {:x?}", decrypted);
}

#[test]
fn algorithm_sizes_and_name() {
    let a = Algorithm::AesGcm256;
    assert_eq!(a.key_len(), 32);
    assert_eq!(a.tag_size(), 16);
    assert_eq!(a.iv_size(), 32);
    assert_eq!(a.name(), "AES-GCM-256");
}

#[test]
fn algorithm_encrypt_shapes() {
    let a = Algorithm::AesGcm256;
    let key = vec![7; 32];
    let (iv, tag, ciphertext) = a.encrypt(&key, b"abc", b"x").unwrap();
    assert_eq!(iv.len(), 32);
    assert_eq!(tag.len(), 16);
    assert_ne!(ciphertext, b"abc".to_vec());
    // a wrong tag, key or additional data does not authenticate
    let mut bad_tag = tag.clone();
    bad_tag[0] ^= 1;
    assert!(a.decrypt(&key, &iv, b"x", &ciphertext, &bad_tag).is_none());
    assert!(a.decrypt(&vec![8; 32], &iv, b"x", &ciphertext, &tag).is_none());
    assert!(a.decrypt(&key, &iv, b"y", &ciphertext, &tag).is_none());
    assert!(a.decrypt(&key, &iv, b"x", &ciphertext, &tag).is_some());
}

#[test]
fn algorithm_encrypt_with_iv_is_deterministic() {
    let a = Algorithm::AesGcm256;
    let key = vec![3; 32];
    let iv = vec![5; 32];
    let (t1, c1) = a.encrypt_with_iv(&key, &iv, b"message", b"aad").unwrap();
    let (t2, c2) = a.encrypt_with_iv(&key, &iv, b"message", b"aad").unwrap();
    assert_eq!(t1, t2);
    assert_eq!(c1, c2);
    assert_eq!(a.decrypt(&key, &iv, b"aad", &c1, &t1), Some(b"message".to_vec()));
}

#[test]
fn algorithm_wrap_unwrap() {
    let a = Algorithm::AesGcm256;
    let key = vec![1; 32];
    let data = b"some key update".to_vec();
    let w = a.wrap(&data, &key, 0x0102030405060708).unwrap();
    assert_eq!(&w[..8], &[1, 2, 3, 4, 5, 6, 7, 8]);
    assert!(w.len() >= 56);
    let mut keys = HashMap::new();
    assert_eq!(a.unwrap(&w, &keys), None);
    keys.insert(0x0102030405060708u64, key.clone());
    assert_eq!(a.unwrap(&w, &keys), Some(data.clone()));
    // a key with another id does not open it
    let mut other = HashMap::new();
    other.insert(9u64, key.clone());
    assert_eq!(a.unwrap(&w, &other), None);
    // too short
    assert_eq!(a.unwrap(&w[..55], &keys), None);
    // the wrapping with a given IV carries that IV
    let iv = vec![4; 32];
    let w2 = a.wrap_with_iv(&data, &key, 5, &iv).unwrap();
    assert_eq!(&w2[8..40], &iv[..]);
    keys.insert(5, key.clone());
    assert_eq!(a.unwrap(&w2, &keys), Some(data));
}

#[test]
fn algorithm_ciphertext_keeps_length() {
    let a = Algorithm::AesGcm256;
    let key = vec![9u8; 32];
    let (_, _, ciphertext) = a.encrypt(&key, b"Hello, World!", b"aad").unwrap();
    assert_eq!(ciphertext.len(), 13);
    let w = a.wrap(&[1u8; 41], &key, 3).unwrap();
    assert_eq!(w.len(), 8 + 32 + 16 + 41);
}
