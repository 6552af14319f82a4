//! Key update packets: a new key, its id and two flags, and their byte form.
use crate::bytes::{be_bytes, from_be, lemma_from_be_bytes, u64_from_be, u64_to_be};
use vstd::prelude::*;
use vstd::slice::slice_subrange;

verus! {

/// A key update: "here is key `new_key`, whose id is `new_key_id`".
#[derive(Debug, PartialEq, Eq, Clone)]
pub struct KeyUpdatePacket {
    pub new_key: Vec<u8>,
    pub new_key_id: u64,
    /// The new key is the group (session) key.
    pub is_session_key: bool,
    /// The receiver is to forget the key with this id.
    pub delete_new_key: bool,
}

/// The content of a key update.
pub struct KeyUpdate {
    pub new_key: Seq<u8>,
    pub new_key_id: u64,
    pub is_session_key: bool,
    pub delete_new_key: bool,
}

impl View for KeyUpdatePacket {
    type V = KeyUpdate;

    open spec fn view(&self) -> KeyUpdate {
        KeyUpdate {
            new_key: self.new_key@,
            new_key_id: self.new_key_id,
            is_session_key: self.is_session_key,
            delete_new_key: self.delete_new_key,
        }
    }
}

/// The flags byte: bit 0 for a session key, bit 1 for a deletion.
pub open spec fn flags_byte(is_session_key: bool, delete_new_key: bool) -> u8 {
    ((if is_session_key { 1int } else { 0int }) + (if delete_new_key { 2int } else { 0int })) as u8
}

/// Byte form of an update: flags (1 byte), key id (8 bytes, big endian), key.
pub open spec fn encode(p: KeyUpdate) -> Seq<u8> {
    seq![flags_byte(p.is_session_key, p.delete_new_key)] + be_bytes(p.new_key_id) + p.new_key
}

/// The update that `b` encodes, if any: at least ten bytes are needed.
pub open spec fn decode(b: Seq<u8>) -> Option<KeyUpdate> {
    if b.len() < 10 {
        None
    } else {
        Some(
            KeyUpdate {
                is_session_key: b[0] & 1u8 == 1u8,
                delete_new_key: b[0] & 2u8 == 2u8,
                new_key_id: from_be(b.subrange(1, 9)),
                new_key: b.subrange(9, b.len() as int),
            },
        )
    }
}

/// Decoding the byte form of an update with a non-empty key gives it back.
pub proof fn lemma_decode_encode(p: KeyUpdate)
    requires
        p.new_key.len() >= 1,
    ensures
        decode(encode(p)) == Some(p),
{
    let b = encode(p);
    lemma_from_be_bytes(p.new_key_id);
    assert(b.subrange(1, 9) =~= be_bytes(p.new_key_id));
    assert(b.subrange(9, b.len() as int) =~= p.new_key);
    let f = flags_byte(p.is_session_key, p.delete_new_key);
    let s = p.is_session_key;
    let d = p.delete_new_key;
    assert((f & 1u8 == 1u8) == s && (f & 2u8 == 2u8) == d) by {
        if s && d {
            assert(f == 3u8);
            assert(3u8 & 1u8 == 1u8 && 3u8 & 2u8 == 2u8) by (bit_vector);
        } else if s {
            assert(f == 1u8);
            assert(1u8 & 1u8 == 1u8 && 1u8 & 2u8 != 2u8) by (bit_vector);
        } else if d {
            assert(f == 2u8);
            assert(2u8 & 1u8 != 1u8 && 2u8 & 2u8 == 2u8) by (bit_vector);
        } else {
            assert(f == 0u8);
            assert(0u8 & 1u8 != 1u8 && 0u8 & 2u8 != 2u8) by (bit_vector);
        }
    }
}

/// A key update together with the key-encryption key (and its id) that is to
/// protect it.
pub struct WrappedKeyUpdatePacket {
    pub packet: KeyUpdatePacket,
    pub ksk: Vec<u8>,
    pub ksk_id: u64,
}

/// An encrypted key update as sent to the group: the key-encryption key is
/// named by its id only.
#[derive(Debug, PartialEq, Eq, Clone)]
pub struct KeylessWrappedKeyUpdatePacket {
    pub ksk_id: u64,
    pub iv: Vec<u8>,
    pub tag: Vec<u8>,
    pub ciphertext: Vec<u8>,
}

impl KeyUpdatePacket {
    /// The byte form of the update.
    pub fn to_bytes(&self) -> (out: Vec<u8>)
        ensures
            out@ == encode(self@),
    {
        let flags: u8 = if self.is_session_key { 1 } else { 0 };
        let flags: u8 = if self.delete_new_key { flags + 2 } else { flags };
        let mut out: Vec<u8> = Vec::new();
        out.push(flags);
        let id = u64_to_be(self.new_key_id);
        out.extend_from_slice(id.as_slice());
        out.extend_from_slice(self.new_key.as_slice());
        assert(out@ =~= encode(self@));
        out
    }

    /// Parses the byte form of an update; `None` when it is shorter than ten
    /// bytes.
    pub fn from_bytes(packet: Vec<u8>) -> (res: Option<Self>)
        ensures
            match res {
                Some(p) => decode(packet@) == Some(p@),
                None => decode(packet@) is None,
            },
    {
        if packet.len() < 10 {
            None
        } else {
            let flags: u8 = packet[0];
            let is_session_key = (flags & 1) == 1;
            let delete_new_key = (flags & 2) == 2;
            let id = u64_from_be(slice_subrange(packet.as_slice(), 1, 9));
            let key = vstd::slice::slice_to_vec(slice_subrange(packet.as_slice(), 9, packet.len()));
            Some(
                KeyUpdatePacket {
                    is_session_key: is_session_key,
                    new_key: key,
                    delete_new_key: delete_new_key,
                    new_key_id: id,
                },
            )
        }
    }

    /// Pairs a copy of this update with the key-encryption key that is to
    /// protect it.
    pub fn wrap(&self, ksk: Vec<u8>, ksk_id: u64) -> (res: WrappedKeyUpdatePacket)
        ensures
            res.packet@ == self@,
            res.ksk@ == ksk@,
            res.ksk_id == ksk_id,
    {
        let key = self.new_key.clone();
        assert(key@ =~= self.new_key@);
        WrappedKeyUpdatePacket {
            packet: KeyUpdatePacket {
                new_key: key,
                new_key_id: self.new_key_id,
                is_session_key: self.is_session_key,
                delete_new_key: self.delete_new_key,
            },
            ksk: ksk,
            ksk_id: ksk_id,
        }
    }
}

} // verus!
