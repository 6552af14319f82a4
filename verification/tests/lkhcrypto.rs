use lkh::algorithm::Algorithm;
use lkh::lkhcrypto::{generate_key, lkh_decrypt, lkh_encrypt};
use lkh::packet::KeyUpdatePacket;

#[test]
fn lkhcrypto_test_encrypt_decrypt() {
    for algo in [Algorithm::AesGcm256] {
        let mut new_key = Vec::new();
        new_key.resize(algo.key_len(), 0);
        let new_key_id = 42 as u64;
        let mut ksk = Vec::new();
        ksk.resize(algo.key_len(), 1);
        let ksk_id = 32 as u64;
        let packet = KeyUpdatePacket {
            delete_new_key: false,
            is_session_key: false,
            new_key: new_key,
            new_key_id: new_key_id,
        };
        let wrapped = packet.wrap(ksk.clone(), ksk_id);

        let cipher = lkh_encrypt(wrapped, algo, 1).unwrap();

        let clear = lkh_decrypt(cipher, ksk, algo).unwrap();

        assert_eq!(clear, packet);
    }
}

#[test]
fn lkhcrypto_counter_iv_and_wrong_key() {
    let algo = Algorithm::AesGcm256;
    let packet = KeyUpdatePacket { delete_new_key: true, is_session_key: true, new_key: vec![9; 32], new_key_id: 7 };
    let cipher = lkh_encrypt(packet.wrap(vec![2; 32], 11), algo, 0x0a0b).unwrap();
    let mut iv = vec![0u8; 30];
    iv.push(0x0a);
    iv.push(0x0b);
    assert_eq!(cipher.iv, iv);
    assert_eq!(cipher.ksk_id, 11);
    assert_eq!(cipher.tag.len(), 16);
    assert_eq!(lkh_decrypt(cipher.clone(), vec![3; 32], algo), None);
    assert_eq!(lkh_decrypt(cipher, vec![2; 32], algo), Some(packet));
}

#[test]
fn lkhcrypto_wrong_key_length_is_an_error() {
    let algo = Algorithm::AesGcm256;
    let packet = KeyUpdatePacket { delete_new_key: false, is_session_key: false, new_key: vec![9; 32], new_key_id: 7 };
    assert_eq!(lkh_encrypt(packet.wrap(vec![2; 5], 11), algo, 1), Err(lkh::Error::EncryptError));
}

#[test]
fn lkhcrypto_generate_key() {
    let k = generate_key(32).unwrap();
    assert_eq!(k.len(), 32);
    assert_eq!(generate_key(0).unwrap().len(), 0);
}
