//! The symmetric cipher used to protect key updates, and the wire format of a
//! wrapped update: key-encryption-key id (8 bytes), IV, tag, ciphertext.
use crate::bytes::{be_bytes, from_be, lemma_from_be_bytes, u64_from_be, u64_to_be};
use crate::Error;
use openssl::rand::rand_bytes;
use openssl::symm::{decrypt_aead, encrypt_aead, Cipher};
use std::collections::HashMap;
use vstd::prelude::*;
use vstd::slice::slice_subrange;

verus! {

broadcast use vstd::std_specs::hash::group_hash_axioms;

/// The largest buffer length that the cipher layer accepts; OpenSSL counts
/// lengths in a C `int`.
pub const MAX_CRYPTO_LEN: usize = 0x7fff_0000;

/// Supported authenticated ciphers.
#[derive(Debug, PartialEq, Eq, Clone, Copy, Structural)]
pub enum Algorithm {
    AesGcm256,
}

/// Name for what OpenSSL's AES-256-GCM encryption yields for a key, an IV,
/// additional authenticated data and a plaintext: the ciphertext and the tag,
/// or nothing where OpenSSL reports an error.
pub uninterp spec fn aes_256_gcm_seal(key: Seq<u8>, iv: Seq<u8>, aad: Seq<u8>, plaintext: Seq<u8>) -> Option<(Seq<u8>, Seq<u8>)>;

/// Name for what OpenSSL's AES-256-GCM decryption yields for a key, an IV,
/// additional authenticated data, a ciphertext and a tag: the plaintext, or
/// nothing where OpenSSL rejects the input (for instance a tag that does not
/// authenticate).
pub uninterp spec fn aes_256_gcm_open(key: Seq<u8>, iv: Seq<u8>, aad: Seq<u8>, ciphertext: Seq<u8>, tag: Seq<u8>) -> Option<Seq<u8>>;

/// Calls `openssl::symm::encrypt_aead` with AES-256-GCM and a 16-byte tag.
/// Trusted: the result is the one that `aes_256_gcm_seal` names, the tag has
/// the 16 bytes it was given, and decrypting what came out with the same key,
/// IV and additional data gives the plaintext back (AEAD correctness, as the
/// crate's own tests check). GCM is a stream mode: the ciphertext has the
/// plaintext's length. The lengths stay within what OpenSSL's `int` counts
/// hold, where the crate would panic.
#[verifier::external_body]
fn openssl_seal(key: &[u8], iv: &[u8], aad: &[u8], plaintext: &[u8]) -> (res: Option<(Vec<u8>, Vec<u8>)>)
    requires
        key@.len() <= MAX_CRYPTO_LEN,
        iv@.len() <= MAX_CRYPTO_LEN,
        aad@.len() <= MAX_CRYPTO_LEN,
        plaintext@.len() <= MAX_CRYPTO_LEN,
    ensures
        match res {
            Some((ct, tag)) => aes_256_gcm_seal(key@, iv@, aad@, plaintext@) == Some((ct@, tag@)),
            None => aes_256_gcm_seal(key@, iv@, aad@, plaintext@) is None,
        },
        res matches Some((ct, tag)) ==> tag@.len() == 16 && ct@.len() == plaintext@.len(),
        res matches Some((ct, tag)) ==> aes_256_gcm_open(key@, iv@, aad@, ct@, tag@) == Some(plaintext@),
{
    let mut tag = vec![0u8; 16];
    match encrypt_aead(Cipher::aes_256_gcm(), key, Some(iv), aad, plaintext, &mut tag) {
        Ok(ct) => Some((ct, tag)),
        Err(_) => None,
    }
}

/// Calls `openssl::symm::decrypt_aead` with AES-256-GCM. Trusted: the result
/// is the one that `aes_256_gcm_open` names; errors come back as `None`; the
/// plaintext is no longer than the ciphertext plus one AES block (the crate
/// truncates an output buffer of that size).
#[verifier::external_body]
fn openssl_open(key: &[u8], iv: &[u8], aad: &[u8], ciphertext: &[u8], tag: &[u8]) -> (res: Option<Vec<u8>>)
    requires
        key@.len() <= MAX_CRYPTO_LEN,
        iv@.len() <= MAX_CRYPTO_LEN,
        aad@.len() <= MAX_CRYPTO_LEN,
        ciphertext@.len() <= MAX_CRYPTO_LEN,
        tag@.len() <= MAX_CRYPTO_LEN,
    ensures
        match res {
            Some(pt) => aes_256_gcm_open(key@, iv@, aad@, ciphertext@, tag@) == Some(pt@),
            None => aes_256_gcm_open(key@, iv@, aad@, ciphertext@, tag@) is None,
        },
        res matches Some(pt) ==> pt@.len() <= ciphertext@.len() + 16,
{
    decrypt_aead(Cipher::aes_256_gcm(), key, Some(iv), aad, ciphertext, tag).ok()
}

/// Calls `openssl::rand::rand_bytes` on a fresh buffer of `len` bytes.
/// Trusted: on success the buffer still has `len` bytes; what they are is
/// chance, so nothing more is said of them.
#[verifier::external_body]
pub(crate) fn openssl_random_bytes(len: usize) -> (res: Option<Vec<u8>>)
    requires
        len <= MAX_CRYPTO_LEN,
    ensures
        res matches Some(v) ==> v@.len() == len,
{
    let mut buf = vec![0u8; len];
    match rand_bytes(&mut buf) {
        Ok(()) => Some(buf),
        Err(_) => None,
    }
}

pub open spec fn spec_key_len(a: Algorithm) -> nat {
    match a {
        Algorithm::AesGcm256 => 32,
    }
}

pub open spec fn spec_tag_size(a: Algorithm) -> nat {
    match a {
        Algorithm::AesGcm256 => 16,
    }
}

pub open spec fn spec_iv_size(a: Algorithm) -> nat {
    match a {
        Algorithm::AesGcm256 => 32,
    }
}

/// Length of the header in front of the ciphertext of a wrapped update.
pub open spec fn header_len(a: Algorithm) -> nat {
    8 + spec_iv_size(a) + spec_tag_size(a)
}

/// A wrapped update as it goes on the wire.
pub open spec fn wire(key_id: u64, iv: Seq<u8>, tag: Seq<u8>, ciphertext: Seq<u8>) -> Seq<u8> {
    be_bytes(key_id) + iv + tag + ciphertext
}

/// The bytes of the keys of a key store.
pub open spec fn key_views(keys: Map<u64, Vec<u8>>) -> Map<u64, Seq<u8>> {
    keys.map_values(|v: Vec<u8>| v@)
}

/// What unwrapping `packet` with the keys in `keys` yields: nothing when it
/// is too short, when no key has its id, or when that key or the packet is
/// longer than OpenSSL can take.
pub open spec fn spec_unwrap(a: Algorithm, packet: Seq<u8>, keys: Map<u64, Seq<u8>>) -> Option<Seq<u8>> {
    if packet.len() < header_len(a) {
        None
    } else {
        let id = from_be(packet);
        if keys.contains_key(id) && keys[id].len() <= MAX_CRYPTO_LEN && packet.len() <= MAX_CRYPTO_LEN {
            aes_256_gcm_open(
                keys[id],
                packet.subrange(8, 8 + spec_iv_size(a) as int),
                packet.subrange(0, 8),
                packet.subrange(header_len(a) as int, packet.len() as int),
                packet.subrange(8 + spec_iv_size(a) as int, header_len(a) as int),
            )
        } else {
            None
        }
    }
}

/// `w` is a wrapped update of `data` for the key `key` with id `key_id`.
pub open spec fn is_wrapping(a: Algorithm, w: Seq<u8>, data: Seq<u8>, key: Seq<u8>, key_id: u64) -> bool {
    &&& w.len() == header_len(a) + data.len()
    &&& w.subrange(0, 8) == be_bytes(key_id)
    &&& aes_256_gcm_seal(
        key,
        w.subrange(8, 8 + spec_iv_size(a) as int),
        be_bytes(key_id),
        data,
    ) == Some((w.subrange(header_len(a) as int, w.len() as int), w.subrange(8 + spec_iv_size(a) as int, header_len(a) as int)))
    &&& aes_256_gcm_open(
        key,
        w.subrange(8, 8 + spec_iv_size(a) as int),
        be_bytes(key_id),
        w.subrange(header_len(a) as int, w.len() as int),
        w.subrange(8 + spec_iv_size(a) as int, header_len(a) as int),
    ) == Some(data)
}

/// The system's source of randomness, as the key server draws from it. It
/// keeps a ghost count of the draws that failed, which nothing but a failed
/// draw raises.
pub struct RandomSource {
    failures: Ghost<nat>,
}

impl RandomSource {
    /// How many draws from this source have failed.
    pub closed spec fn failures(&self) -> nat {
        self.failures@
    }

    /// A source with no failed draw.
    pub fn new() -> (r: Self)
        ensures
            r.failures() == 0,
    {
        RandomSource { failures: Ghost(0) }
    }

    /// Draws `len` random bytes; `None`, counted as a failure, when the
    /// system cannot give them.
    pub fn bytes(&mut self, len: usize) -> (res: Option<Vec<u8>>)
        requires
            len <= MAX_CRYPTO_LEN,
        ensures
            res matches Some(v) ==> v@.len() == len,
            final(self).failures() == old(self).failures() + if res is None { 1nat } else { 0nat },
    {
        let res = openssl_random_bytes(len);
        if res.is_none() {
            self.failures = Ghost(self.failures@ + 1);
        }
        res
    }
}

impl Algorithm {
    /// Length in bytes of the keys of this algorithm.
    pub fn key_len(&self) -> (n: usize)
        ensures
            n == spec_key_len(*self),
    {
        match self {
            Algorithm::AesGcm256 => 32,
        }
    }

    /// Length in bytes of the authentication tag.
    pub fn tag_size(&self) -> (n: usize)
        ensures
            n == spec_tag_size(*self),
    {
        match self {
            Algorithm::AesGcm256 => 16,
        }
    }

    /// Length in bytes of the IV.
    pub fn iv_size(&self) -> (n: usize)
        ensures
            n == spec_iv_size(*self),
    {
        match self {
            Algorithm::AesGcm256 => 32,
        }
    }

    /// Human-readable name of the algorithm.
    pub fn name(&self) -> (s: &'static str)
        ensures
            s@ == "AES-GCM-256"@,
    {
        match self {
            Algorithm::AesGcm256 => "AES-GCM-256",
        }
    }

    /// Encrypts `plaintext` under `key` with the given IV; returns the tag and
    /// the ciphertext.
    pub fn encrypt_with_iv(&self, key: &[u8], iv: &[u8], plaintext: &[u8], aad: &[u8]) -> (res: Result<(Vec<u8>, Vec<u8>), Error>)
        requires
            key@.len() <= MAX_CRYPTO_LEN,
            iv@.len() <= MAX_CRYPTO_LEN,
            aad@.len() <= MAX_CRYPTO_LEN,
            plaintext@.len() <= MAX_CRYPTO_LEN,
        ensures
            match res {
                Ok((tag, ct)) => {
                    &&& aes_256_gcm_seal(key@, iv@, aad@, plaintext@) == Some((ct@, tag@))
                    &&& tag@.len() == spec_tag_size(*self)
                    &&& ct@.len() == plaintext@.len()
                    &&& aes_256_gcm_open(key@, iv@, aad@, ct@, tag@) == Some(plaintext@)
                },
                Err(e) => e == Error::EncryptError && aes_256_gcm_seal(key@, iv@, aad@, plaintext@) is None,
            },
    {
        match self {
            Algorithm::AesGcm256 => match openssl_seal(key, iv, aad, plaintext) {
                Some((ct, tag)) => Ok((tag, ct)),
                None => Err(Error::EncryptError),
            },
        }
    }

    /// Encrypts `plaintext` under `key` with a fresh random IV; returns the IV,
    /// the tag and the ciphertext.
    pub fn encrypt(&self, key: &[u8], plaintext: &[u8], aad: &[u8]) -> (res: Result<(Vec<u8>, Vec<u8>, Vec<u8>), Error>)
        requires
            key@.len() <= MAX_CRYPTO_LEN,
            aad@.len() <= MAX_CRYPTO_LEN,
            plaintext@.len() <= MAX_CRYPTO_LEN,
        ensures
            match res {
                Ok((iv, tag, ct)) => {
                    &&& iv@.len() == spec_iv_size(*self)
                    &&& tag@.len() == spec_tag_size(*self)
                    &&& ct@.len() == plaintext@.len()
                    &&& aes_256_gcm_seal(key@, iv@, aad@, plaintext@) == Some((ct@, tag@))
                    &&& aes_256_gcm_open(key@, iv@, aad@, ct@, tag@) == Some(plaintext@)
                },
                Err(e) => e == Error::EncryptError,
            },
    {
        let mut random = RandomSource::new();
        self.encrypt_from(&mut random, key, plaintext, aad)
    }

    /// Encrypts `plaintext` under `key` with an IV drawn from `random`;
    /// returns the IV, the tag and the ciphertext. Fails only when the draw
    /// fails, or when the cipher refuses the drawn IV (which, then, is an IV
    /// of the right length for which it refuses these inputs).
    pub fn encrypt_from(&self, random: &mut RandomSource, key: &[u8], plaintext: &[u8], aad: &[u8]) -> (res: Result<(Vec<u8>, Vec<u8>, Vec<u8>), Error>)
        requires
            key@.len() <= MAX_CRYPTO_LEN,
            aad@.len() <= MAX_CRYPTO_LEN,
            plaintext@.len() <= MAX_CRYPTO_LEN,
        ensures
            match res {
                Ok((iv, tag, ct)) => {
                    &&& iv@.len() == spec_iv_size(*self)
                    &&& tag@.len() == spec_tag_size(*self)
                    &&& ct@.len() == plaintext@.len()
                    &&& aes_256_gcm_seal(key@, iv@, aad@, plaintext@) == Some((ct@, tag@))
                    &&& aes_256_gcm_open(key@, iv@, aad@, ct@, tag@) == Some(plaintext@)
                },
                Err(e) => e == Error::EncryptError,
            },
            res is Ok ==> final(random).failures() == old(random).failures(),
            res is Err ==> final(random).failures() > old(random).failures() || (final(random).failures() == old(random).failures()
                && exists|iv: Seq<u8>| iv.len() == spec_iv_size(*self) && #[trigger] aes_256_gcm_seal(key@, iv, aad@, plaintext@) is None),
    {
        let iv = match random.bytes(self.iv_size()) {
            Some(iv) => iv,
            None => return Err(Error::EncryptError),
        };
        let (tag, ct) = self.encrypt_with_iv(key, iv.as_slice(), plaintext, aad)?;
        Ok((iv, tag, ct))
    }

    /// Decrypts and authenticates `ciphertext`.
    pub fn decrypt(&self, key: &[u8], iv: &[u8], aad: &[u8], ciphertext: &[u8], tag: &[u8]) -> (res: Option<Vec<u8>>)
        requires
            key@.len() <= MAX_CRYPTO_LEN,
            iv@.len() <= MAX_CRYPTO_LEN,
            aad@.len() <= MAX_CRYPTO_LEN,
            ciphertext@.len() <= MAX_CRYPTO_LEN,
            tag@.len() <= MAX_CRYPTO_LEN,
        ensures
            match res {
                Some(pt) => aes_256_gcm_open(key@, iv@, aad@, ciphertext@, tag@) == Some(pt@),
                None => aes_256_gcm_open(key@, iv@, aad@, ciphertext@, tag@) is None,
            },
            res matches Some(pt) ==> pt@.len() <= ciphertext@.len() + 16,
    {
        match self {
            Algorithm::AesGcm256 => openssl_open(key, iv, aad, ciphertext, tag),
        }
    }

    /// Wraps `data` for the holders of `key` (whose id is `key_id`) with the
    /// given IV: id, IV, tag and ciphertext, the id being authenticated.
    pub fn wrap_with_iv(&self, data: &[u8], key: &[u8], key_id: u64, iv: &[u8]) -> (res: Result<Vec<u8>, Error>)
        requires
            key@.len() <= MAX_CRYPTO_LEN,
            data@.len() <= MAX_CRYPTO_LEN,
            iv@.len() == spec_iv_size(*self),
        ensures
            match res {
                Ok(w) => is_wrapping(*self, w@, data@, key@, key_id) && w@.subrange(8, 8 + spec_iv_size(*self) as int) == iv@
                    && w@.len() == header_len(*self) + data@.len(),
                Err(e) => e == Error::EncryptError && aes_256_gcm_seal(key@, iv@, be_bytes(key_id), data@) is None,
            },
    {
        let mut out = u64_to_be(key_id);
        let (tag, ct) = self.encrypt_with_iv(key, iv, data, out.as_slice())?;
        let ghost aad = out@;
        out.extend_from_slice(iv);
        out.extend_from_slice(tag.as_slice());
        out.extend_from_slice(ct.as_slice());
        proof {
            let w = out@;
            assert(w =~= aad + iv@ + tag@ + ct@);
            assert(w.subrange(0, 8) =~= aad);
            assert(w.subrange(8, 8 + spec_iv_size(*self) as int) =~= iv@);
            assert(w.subrange(8 + spec_iv_size(*self) as int, header_len(*self) as int) =~= tag@);
            assert(w.subrange(header_len(*self) as int, w.len() as int) =~= ct@);
        }
        Ok(out)
    }

    /// Wraps `data` for the holders of `key` with a fresh random IV.
    pub fn wrap(&self, data: &[u8], key: &[u8], key_id: u64) -> (res: Result<Vec<u8>, Error>)
        requires
            key@.len() <= MAX_CRYPTO_LEN,
            data@.len() <= MAX_CRYPTO_LEN,
        ensures
            match res {
                Ok(w) => is_wrapping(*self, w@, data@, key@, key_id) && w@.len() == header_len(*self) + data@.len(),
                Err(e) => e == Error::EncryptError,
            },
    {
        let mut random = RandomSource::new();
        self.wrap_from(&mut random, data, key, key_id)
    }

    /// Wraps `data` for the holders of `key` with an IV drawn from `random`.
    /// Fails only when the draw fails, or when the cipher refuses the drawn
    /// IV (which, then, is an IV of the right length for which it refuses
    /// these inputs).
    pub fn wrap_from(&self, random: &mut RandomSource, data: &[u8], key: &[u8], key_id: u64) -> (res: Result<Vec<u8>, Error>)
        requires
            key@.len() <= MAX_CRYPTO_LEN,
            data@.len() <= MAX_CRYPTO_LEN,
        ensures
            match res {
                Ok(w) => is_wrapping(*self, w@, data@, key@, key_id) && w@.len() == header_len(*self) + data@.len(),
                Err(e) => e == Error::EncryptError,
            },
            res is Ok ==> final(random).failures() == old(random).failures(),
            res is Err ==> final(random).failures() > old(random).failures() || (final(random).failures() == old(random).failures()
                && exists|iv: Seq<u8>| iv.len() == spec_iv_size(*self) && #[trigger] aes_256_gcm_seal(key@, iv, be_bytes(key_id), data@) is None),
    {
        let iv = match random.bytes(self.iv_size()) {
            Some(iv) => iv,
            None => return Err(Error::EncryptError),
        };
        self.wrap_with_iv(data, key, key_id, iv.as_slice())
    }

    /// Unwraps a packet with whichever of `keys` its header names.
    pub fn unwrap(&self, packet: &[u8], keys: &HashMap<u64, Vec<u8>>) -> (res: Option<Vec<u8>>)
        ensures
            match res {
                Some(pt) => spec_unwrap(*self, packet@, key_views(keys@)) == Some(pt@),
                None => spec_unwrap(*self, packet@, key_views(keys@)) is None,
            },
            res matches Some(pt) ==> pt@.len() <= packet@.len(),
    {
        let iv_end: usize = 8 + self.iv_size();
        let header: usize = iv_end + self.tag_size();
        if packet.len() < header {
            return None;
        }
        let id = u64_from_be(packet);
        let key = match keys.get(&id) {
            Some(k) => k,
            None => return None,
        };
        assert(key_views(keys@)[id] == key@);
        if key.len() > MAX_CRYPTO_LEN || packet.len() > MAX_CRYPTO_LEN {
            return None;
        }
        let aad = slice_subrange(packet, 0, 8);
        let iv = slice_subrange(packet, 8, iv_end);
        let tag = slice_subrange(packet, iv_end, header);
        let ct = slice_subrange(packet, header, packet.len());
        self.decrypt(key.as_slice(), iv, aad, ct, tag)
    }
}

/// Unwrapping a wrapped update with a key set that holds the wrapping key
/// under its id gives the data back.
pub proof fn lemma_unwrap_wrapping(a: Algorithm, w: Seq<u8>, data: Seq<u8>, key: Seq<u8>, key_id: u64, keys: Map<u64, Seq<u8>>)
    requires
        is_wrapping(a, w, data, key, key_id),
        keys.contains_key(key_id),
        keys[key_id] == key,
        key.len() <= MAX_CRYPTO_LEN,
        w.len() <= MAX_CRYPTO_LEN,
    ensures
        spec_unwrap(a, w, keys) == Some(data),
{
    lemma_from_be_bytes(key_id);
    assert(from_be(w) == from_be(w.subrange(0, 8)));
}

} // verus!
