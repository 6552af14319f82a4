//! Encryption of key updates for the multicast group, and key generation.
use crate::algorithm::{
    aes_256_gcm_open, aes_256_gcm_seal, spec_iv_size, spec_key_len, spec_tag_size, Algorithm,
    MAX_CRYPTO_LEN,
};
use crate::bytes::{be_bytes, u64_to_be};
use crate::packet::{
    decode, encode, lemma_decode_encode, KeyUpdate, KeyUpdatePacket, KeylessWrappedKeyUpdatePacket,
    WrappedKeyUpdatePacket,
};
use crate::Error;
use rand::rngs::{StdRng, SysRng};
use rand::{RngExt, SeedableRng};
use vstd::prelude::*;

verus! {

/// Seeds `rand::rngs::StdRng` from `rand::rngs::SysRng` and fills a buffer of
/// `len` bytes with it (`RngExt::fill`). Trusted: on success the buffer still
/// has `len` bytes; the bytes are chance. A failure to seed gives `None`.
#[verifier::external_body]
fn system_rng_bytes(len: usize) -> (res: Option<Vec<u8>>)
    ensures
        res matches Some(v) ==> v@.len() == len,
{
    match StdRng::try_from_rng(&mut SysRng) {
        Ok(mut rng) => {
            let mut key = vec![0u8; len];
            rng.fill(&mut key[..]);
            Some(key)
        },
        Err(_) => None,
    }
}

/// Generates a random key of `key_size` bytes; `None` when the system source
/// of randomness cannot be read.
pub fn generate_key(key_size: usize) -> (res: Option<Vec<u8>>)
    ensures
        res matches Some(k) ==> k@.len() == key_size,
{
    system_rng_bytes(key_size)
}

/// The IV of the message numbered `counter`: zeros, then the counter in big
/// endian in the last eight bytes.
pub open spec fn counter_iv(algo: Algorithm, counter: u64) -> Seq<u8> {
    Seq::new((spec_iv_size(algo) - 8) as nat, |i: int| 0u8) + be_bytes(counter)
}

/// `k` is the encryption of update `p` under key `ksk` (id `ksk_id`) with the
/// IV of message `counter`, the key id being authenticated.
pub open spec fn is_group_encryption(
    algo: Algorithm,
    k: KeylessWrappedKeyUpdatePacket,
    p: KeyUpdate,
    ksk: Seq<u8>,
    ksk_id: u64,
    counter: u64,
) -> bool {
    &&& k.ksk_id == ksk_id
    &&& k.iv@ == counter_iv(algo, counter)
    &&& k.tag@.len() == spec_tag_size(algo)
    &&& k.ciphertext@.len() == encode(p).len()
    &&& aes_256_gcm_seal(ksk, k.iv@, be_bytes(ksk_id), encode(p)) == Some((k.ciphertext@, k.tag@))
    &&& aes_256_gcm_open(ksk, k.iv@, be_bytes(ksk_id), k.ciphertext@, k.tag@) == Some(encode(p))
}

/// What decrypting `k` with `key` yields.
pub open spec fn spec_group_decrypt(k: KeylessWrappedKeyUpdatePacket, key: Seq<u8>) -> Option<KeyUpdate> {
    match aes_256_gcm_open(key, k.iv@, be_bytes(k.ksk_id), k.ciphertext@, k.tag@) {
        Some(pt) => decode(pt),
        None => None,
    }
}

/// Encrypts a key update for the multicast group under its key-encryption
/// key, using the IV of message `counter`.
pub fn lkh_encrypt(packet: WrappedKeyUpdatePacket, algo: Algorithm, counter: u64) -> (res: Result<KeylessWrappedKeyUpdatePacket, Error>)
    requires
        packet.ksk@.len() <= MAX_CRYPTO_LEN,
        packet.packet.new_key@.len() <= MAX_CRYPTO_LEN - 9,
    ensures
        match res {
            Ok(k) => is_group_encryption(algo, k, packet.packet@, packet.ksk@, packet.ksk_id, counter),
            Err(e) => e == Error::EncryptError && aes_256_gcm_seal(
                packet.ksk@,
                counter_iv(algo, counter),
                be_bytes(packet.ksk_id),
                encode(packet.packet@),
            ) is None,
        },
{
    let iv_len: usize = algo.iv_size();
    let mut iv: Vec<u8> = Vec::new();
    while iv.len() < iv_len - 8
        invariant
            iv_len == spec_iv_size(algo),
            iv@.len() <= iv_len - 8,
            forall|i: int| 0 <= i < iv@.len() ==> iv@[i] == 0u8,
        decreases iv_len - 8 - iv@.len(),
    {
        iv.push(0u8);
    }
    let ctr = u64_to_be(counter);
    iv.extend_from_slice(ctr.as_slice());
    assert(iv@ =~= counter_iv(algo, counter));
    let plaintext = packet.packet.to_bytes();
    let aad = u64_to_be(packet.ksk_id);
    let (tag, ciphertext) = algo.encrypt_with_iv(packet.ksk.as_slice(), iv.as_slice(), plaintext.as_slice(), aad.as_slice())?;
    Ok(KeylessWrappedKeyUpdatePacket { ksk_id: packet.ksk_id, iv: iv, tag: tag, ciphertext: ciphertext })
}

/// Decrypts a key update received from the multicast group with `key`;
/// `None` when it does not authenticate or does not parse.
pub fn lkh_decrypt(packet: KeylessWrappedKeyUpdatePacket, key: Vec<u8>, algo: Algorithm) -> (res: Option<KeyUpdatePacket>)
    requires
        key@.len() <= MAX_CRYPTO_LEN,
        packet.iv@.len() <= MAX_CRYPTO_LEN,
        packet.tag@.len() <= MAX_CRYPTO_LEN,
        packet.ciphertext@.len() <= MAX_CRYPTO_LEN,
    ensures
        match res {
            Some(p) => spec_group_decrypt(packet, key@) == Some(p@),
            None => spec_group_decrypt(packet, key@) is None,
        },
{
    let aad = u64_to_be(packet.ksk_id);
    match algo.decrypt(key.as_slice(), packet.iv.as_slice(), aad.as_slice(), packet.ciphertext.as_slice(), packet.tag.as_slice()) {
        Some(pt) => KeyUpdatePacket::from_bytes(pt),
        None => None,
    }
}

/// Decrypting, with the key-encryption key, what `lkh_encrypt` produced from
/// an update with a non-empty key gives that update back.
pub proof fn lemma_group_decrypt_encryption(
    algo: Algorithm,
    k: KeylessWrappedKeyUpdatePacket,
    p: KeyUpdate,
    ksk: Seq<u8>,
    ksk_id: u64,
    counter: u64,
)
    requires
        is_group_encryption(algo, k, p, ksk, ksk_id, counter),
        p.new_key.len() >= 1,
    ensures
        spec_group_decrypt(k, ksk) == Some(p),
{
    lemma_decode_encode(p);
}

} // verus!
