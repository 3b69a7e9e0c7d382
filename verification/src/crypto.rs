//! Keys, nonces and the authenticated encryption of packets.
//!
//! A datagram is the eight low-order bytes of a nonce followed by the
//! AES-128-OCB3 encryption of the text under the session key and that nonce.

use aead::{Aead, KeyInit, Nonce};
use aes::Aes128;
use ocb3::Ocb3;
use rand::RngCore;
use vstd::prelude::*;
use vstd::slice::slice_subrange;

use crate::octets::{push_all, push_be, read_be};
use crate::radix64::encode_unpadded;

verus! {

broadcast use vstd::array::array_len_matches_n;

/// Length of the nonce that the cipher takes.
pub const NONCE_LEN: usize = 12;

/// Length of the tag that the cipher appends.
pub const TAG_LEN: usize = 16;

const DIRECTION_MASK: u64 = 0x8000_0000_0000_0000;

const SEQUENCE_MASK: u64 = 0x7fff_ffff_ffff_ffff;

/// Why a key, a nonce or a datagram was refused.
#[derive(Debug)]
pub struct CryptoError {
    pub message: String,
}

impl CryptoError {
    /// The error that says `message`.
    pub fn new(message: &str) -> (e: CryptoError)
        ensures
            e.message@ == message@,
    {
        CryptoError { message: message.to_owned() }
    }

    /// What the error says.
    pub fn to_string(&self) -> (text: String)
        ensures
            text@ == self.message@,
    {
        self.message.clone()
    }
}

/// A 128-bit session key.
pub struct Base64Key {
    key: [u8; 16],
}

impl View for Base64Key {
    type V = Seq<u8>;

    closed spec fn view(&self) -> Seq<u8> {
        self.key@
    }
}

impl Clone for Base64Key {
    fn clone(&self) -> (copy: Self)
        ensures
            copy@ == self@,
    {
        Base64Key { key: self.key }
    }
}

/// Calls `RngCore::fill_bytes` of `rand::thread_rng()`, which fills the buffer
/// with random bytes: nothing is claimed of them.
#[verifier::external_body]
fn random_key_bytes() -> (key: [u8; 16]) {
    let mut key = [0u8; 16];
    rand::thread_rng().fill_bytes(&mut key);
    key
}

impl Base64Key {
    /// A fresh random key. Any sixteen bytes may come out.
    pub fn new() -> (key: Self)
        ensures
            key@.len() == 16,
    {
        Base64Key::from_data(random_key_bytes())
    }

    /// The key with the given bytes.
    pub fn from_data(data: [u8; 16]) -> (key: Self)
        ensures
            key@ == data@,
    {
        Base64Key { key: data }
    }

    /// The key as the client is told it: base64 without padding.
    pub fn printable_key(&self) -> (text: String)
        ensures
            text@ == crate::radix64::trimmed(crate::radix64::padded(self@), '='),
    {
        encode_unpadded(self.key.as_slice())
    }

    /// The bytes of the key.
    pub fn data(&self) -> (data: &[u8; 16])
        ensures
            data@ == self@,
    {
        &self.key
    }
}

/// Every key has sixteen bytes.
pub proof fn lemma_key_len(key: &Base64Key)
    ensures
        key@.len() == 16,
{
}

/// The nonce whose low-order eight bytes are `cc`: four zero bytes, then `cc`.
pub open spec fn full_nonce(cc: Seq<u8>) -> Seq<u8> {
    seq![0u8, 0u8, 0u8, 0u8] + cc
}

/// A nonce: four zero bytes and a 64-bit big-endian number.
#[derive(Debug)]
pub struct MoshNonce {
    bytes: [u8; 12],
}

impl View for MoshNonce {
    type V = Seq<u8>;

    closed spec fn view(&self) -> Seq<u8> {
        self.bytes@
    }
}

impl Clone for MoshNonce {
    fn clone(&self) -> (copy: Self)
        ensures
            copy@ == self@,
    {
        MoshNonce { bytes: self.bytes }
    }
}

impl MoshNonce {
    /// The eight bytes that travel with a datagram.
    pub open spec fn cc(self) -> Seq<u8> {
        self@.subrange(4, 12)
    }

    /// A nonce starts with four zero bytes; every constructor sees to it.
    pub open spec fn wf(self) -> bool {
        self@ == full_nonce(self.cc())
    }

    /// The nonce for a number.
    pub fn from_val(val: u64) -> (nonce: Self)
        ensures
            nonce.cc() == crate::octets::be_bytes(val as nat, 8),
            nonce.wf(),
    {
        let mut wire: Vec<u8> = Vec::new();
        push_be(&mut wire, val, 8);
        proof {
            crate::octets::lemma_be_bytes_len(val as nat, 8);
            assert(wire@ =~= crate::octets::be_bytes(val as nat, 8));
        }
        MoshNonce::from_octets(wire.as_slice())
    }

    /// The nonce for the eight bytes of a datagram.
    pub fn from_bytes(wire_bytes: &[u8]) -> (r: Result<Self, CryptoError>)
        ensures
            r is Ok <==> wire_bytes@.len() == 8,
            r matches Ok(nonce) ==> nonce.cc() == wire_bytes@ && nonce.wf(),
            r matches Err(e) ==> e.message@ == "Nonce representation must be 8 octets long."@,
    {
        if wire_bytes.len() != 8 {
            return Err(CryptoError::new("Nonce representation must be 8 octets long."));
        }
        Ok(MoshNonce::from_octets(wire_bytes))
    }

    fn from_octets(wire: &[u8]) -> (nonce: Self)
        requires
            wire@.len() == 8,
        ensures
            nonce.cc() == wire@,
            nonce.wf(),
    {
        let bytes = [
            0,
            0,
            0,
            0,
            wire[0],
            wire[1],
            wire[2],
            wire[3],
            wire[4],
            wire[5],
            wire[6],
            wire[7],
        ];
        let nonce = MoshNonce { bytes };
        assert(nonce.cc() =~= wire@);
        assert(nonce@ =~= full_nonce(wire@));
        nonce
    }

    /// The eight bytes that travel with a datagram.
    pub fn cc_str(&self) -> (cc: &[u8])
        ensures
            cc@ == self.cc(),
    {
        slice_subrange(self.bytes.as_slice(), 4, 12)
    }

    /// All twelve bytes, as the cipher takes them.
    pub fn data(&self) -> (data: &[u8; 12])
        ensures
            data@ == self@,
    {
        &self.bytes
    }

    /// The number of the nonce.
    pub fn val(&self) -> (val: u64)
        ensures
            val == crate::octets::be_value(self.cc()),
    {
        read_be(self.cc_str())
    }
}

/// Every nonce has twelve bytes.
pub proof fn lemma_nonce_len(nonce: &MoshNonce)
    ensures
        nonce@.len() == 12,
{
}

/// The nonce made for a number has that number.
pub proof fn law_nonce_value(nonce: MoshNonce, val: u64)
    requires
        nonce.cc() == crate::octets::be_bytes(val as nat, 8),
    ensures
        crate::octets::be_value(nonce.cc()) == val,
{
    crate::octets::lemma_pow256();
    crate::octets::law_be_read_after_write(val as nat, 8);
}

/// A text and the nonce it is sent under.
pub struct Message {
    pub nonce: MoshNonce,
    pub text: Vec<u8>,
}

/// The number of a packet's nonce: the top bit tells its direction, the other
/// 63 bits are its sequence number.
pub open spec fn nonce_val(to_client: bool, seq: u64) -> u64 {
    ((if to_client {
        0x8000_0000_0000_0000int
    } else {
        0
    }) + seq as int % 0x8000_0000_0000_0000) as u64
}

/// The number of the nonce of a packet.
pub fn make_nonce_val(to_client: bool, seq: u64) -> (val: u64)
    ensures
        val == nonce_val(to_client, seq),
{
    let direction_bit: u64 = if to_client {
        DIRECTION_MASK
    } else {
        0
    };
    assert(0x8000_0000_0000_0000u64 | (seq & 0x7fff_ffff_ffff_ffff) == 0x8000_0000_0000_0000u64 + (
    seq % 0x8000_0000_0000_0000)) by (bit_vector);
    assert(0u64 | (seq & 0x7fff_ffff_ffff_ffff) == seq % 0x8000_0000_0000_0000) by (bit_vector);
    direction_bit | (seq & SEQUENCE_MASK)
}

/// Whether a nonce with this number belongs to a packet to the client.
pub fn nonce_is_to_client(val: u64) -> (to_client: bool)
    ensures
        to_client == (val >= 0x8000_0000_0000_0000),
{
    assert((val & 0x8000_0000_0000_0000 != 0) == (val >= 0x8000_0000_0000_0000)) by (bit_vector);
    val & DIRECTION_MASK != 0
}

/// The sequence number of the packet whose nonce has this number.
pub fn nonce_seq(val: u64) -> (seq: u64)
    ensures
        seq == val as int % 0x8000_0000_0000_0000,
{
    assert(val & 0x7fff_ffff_ffff_ffff == val % 0x8000_0000_0000_0000) by (bit_vector);
    val & SEQUENCE_MASK
}

/// Direction and sequence number are both recovered from the nonce's number,
/// as long as the sequence number has 63 bits.
pub proof fn law_nonce_fields(to_client: bool, seq: u64)
    requires
        seq < 0x8000_0000_0000_0000,
    ensures
        (nonce_val(to_client, seq) >= 0x8000_0000_0000_0000) == to_client,
        nonce_val(to_client, seq) as int % 0x8000_0000_0000_0000 == seq,
{
}

/// Packets that differ in direction or in sequence number have different nonces.
pub proof fn law_nonces_are_distinct(to_client: bool, seq: u64, other_to_client: bool, other: u64)
    requires
        seq < 0x8000_0000_0000_0000,
        other < 0x8000_0000_0000_0000,
        nonce_val(to_client, seq) == nonce_val(other_to_client, other),
    ensures
        to_client == other_to_client,
        seq == other,
{
    law_nonce_fields(to_client, seq);
    law_nonce_fields(other_to_client, other);
}

/// Every number is the number of the nonce of exactly the packet that it tells.
pub proof fn law_nonce_value_is_told_by_its_fields(val: u64)
    ensures
        nonce_val(
            val >= 0x8000_0000_0000_0000,
            (val as int % 0x8000_0000_0000_0000) as u64,
        ) == val,
{
}

/// AES-128-OCB3 of `text` under `key` and `nonce`, without associated data: the
/// ciphertext and its tag.
pub uninterp spec fn ocb_sealed(key: Seq<u8>, nonce: Seq<u8>, text: Seq<u8>) -> Seq<u8>;

/// What AES-128-OCB3 makes of a ciphertext with its tag: the text, or nothing
/// where the tag does not fit.
pub uninterp spec fn ocb_opened(key: Seq<u8>, nonce: Seq<u8>, body: Seq<u8>) -> Option<Seq<u8>>;

/// The cipher takes texts shorter than this. It has one precomputed offset for
/// each power of two of sixteen-byte blocks, 32 of them (16 where `usize` has
/// 32 bits), and panics when it runs out of them.
pub open spec fn ocb_text_limit() -> int {
    if usize::BITS == 64 {
        0x10_0000_0000
    } else {
        0x10_0000
    }
}

#[verifier::external_type_specification]
#[verifier::external_body]
pub struct ExAeadError(aead::Error);

/// Calls `KeyInit::new_from_slice` of `Ocb3<Aes128>`. Trusted: it succeeds just
/// where the key has sixteen bytes.
#[verifier::external_body]
fn ocb_takes_key(key: &[u8]) -> (ok: bool)
    ensures
        ok == (key@.len() == 16),
{
    Ocb3::<Aes128>::new_from_slice(key).is_ok()
}

/// Calls `Aead::encrypt` of `Ocb3<Aes128>`. Trusted: it succeeds, the result
/// depends on key, nonce and text alone, it is longer than the text by the tag,
/// and decryption under the same key and nonce gives the text back.
#[verifier::external_body]
fn ocb_encrypt(key: &[u8; 16], nonce: &[u8; 12], text: &[u8]) -> (r: Result<Vec<u8>, aead::Error>)
    requires
        text@.len() < ocb_text_limit(),
    ensures
        r is Ok,
        r matches Ok(body) ==> body@ == ocb_sealed(key@, nonce@, text@),
        r matches Ok(body) ==> body@.len() == text@.len() + 16,
        r matches Ok(body) ==> ocb_opened(key@, nonce@, body@) == Some(text@),
{
    let cipher = Ocb3::<Aes128>::new(key.into());
    cipher.encrypt(Nonce::<Ocb3<Aes128>>::from_slice(nonce), text)
}

/// Calls `Aead::decrypt` of `Ocb3<Aes128>`. Trusted: the result depends on key,
/// nonce and body alone, and a body is opened to a text only if it is what that
/// text encrypts to.
#[verifier::external_body]
fn ocb_decrypt(key: &[u8; 16], nonce: &[u8; 12], body: &[u8]) -> (r: Result<Vec<u8>, aead::Error>)
    requires
        body@.len() < ocb_text_limit() + 16,
    ensures
        r is Ok == ocb_opened(key@, nonce@, body@) is Some,
        r matches Ok(text) ==> ocb_opened(key@, nonce@, body@) == Some(text@),
        r matches Ok(text) ==> body@ == ocb_sealed(key@, nonce@, text@),
        r matches Ok(text) ==> body@.len() == text@.len() + 16,
{
    let cipher = Ocb3::<Aes128>::new(key.into());
    cipher.decrypt(Nonce::<Ocb3<Aes128>>::from_slice(nonce), body)
}

/// The datagram that carries `text` under `key` and `nonce`.
pub open spec fn datagram(key: Seq<u8>, nonce: Seq<u8>, text: Seq<u8>) -> Seq<u8> {
    nonce.subrange(4, 12) + ocb_sealed(key, nonce, text)
}

/// The nonce and the text that a datagram carries under `key`, if it is genuine.
pub open spec fn opened(key: Seq<u8>, data: Seq<u8>) -> Option<(Seq<u8>, Seq<u8>)> {
    if data.len() < 24 {
        None
    } else {
        match ocb_opened(key, full_nonce(data.take(8)), data.skip(8)) {
            Some(text) => Some((full_nonce(data.take(8)), text)),
            None => None,
        }
    }
}

/// The number of sixteen-byte blocks that `len` bytes take up.
pub open spec fn block_count(len: nat) -> nat {
    (len + 15) / 16
}

/// The count of encrypted blocks after a text of `len` bytes. It wraps at `2^64`.
pub open spec fn blocks_after(blocks: u64, len: nat) -> u64 {
    ((blocks + block_count(len)) % 0x1_0000_0000_0000_0000) as u64
}

/// A key in use, with a count of the blocks encrypted under it.
pub struct Session {
    key: Base64Key,
    blocks_encrypted: u64,
}

impl Session {
    /// The key in use.
    pub closed spec fn key(self) -> Seq<u8> {
        self.key@
    }

    /// How many blocks were encrypted.
    pub closed spec fn blocks(self) -> u64 {
        self.blocks_encrypted
    }

    /// A session under `key`. Every key serves.
    pub fn new(key: &Base64Key) -> (r: Result<Self, CryptoError>)
        ensures
            r is Ok,
            r matches Ok(session) ==> session.key() == key@ && session.blocks() == 0,
    {
        if !ocb_takes_key(key.data().as_slice()) {
            return Err(CryptoError::new("Could not initialize AES-OCB context."));
        }
        Ok(Session { key: key.clone(), blocks_encrypted: 0 })
    }

    /// The datagram for a message. The blocks of its text are counted, and from
    /// `2^47` blocks on the message is refused. A datagram that comes out opens
    /// to the message again.
    pub fn encrypt(&mut self, plaintext: &Message) -> (r: Result<Vec<u8>, CryptoError>)
        requires
            plaintext.text@.len() < ocb_text_limit(),
        ensures
            final(self).key() == old(self).key(),
            final(self).blocks() == blocks_after(old(self).blocks(), plaintext.text@.len()),
            r is Ok <==> final(self).blocks() < 0x8000_0000_0000,
            r matches Ok(data) ==> data@ == datagram(
                old(self).key(),
                plaintext.nonce@,
                plaintext.text@,
            ),
            r matches Ok(data) ==> data@.len() == plaintext.text@.len() + 24,
            r matches Ok(data) ==> plaintext.nonce.wf() ==> opened(old(self).key(), data@) == Some(
                (plaintext.nonce@, plaintext.text@),
            ),
            r matches Err(e) ==> e.message@ == "Encrypted 2^47 blocks."@,
    {
        let pt_len: usize = plaintext.text.len();
        let ciphertext = match ocb_encrypt(
            self.key.data(),
            plaintext.nonce.data(),
            plaintext.text.as_slice(),
        ) {
            Ok(body) => body,
            Err(_) => return Err(CryptoError::new("ae_encrypt() returned error.")),
        };

        let partial: u64 = if pt_len % 16 != 0 {
            1
        } else {
            0
        };
        self.blocks_encrypted = self.blocks_encrypted.wrapping_add(pt_len as u64 / 16 + partial);
        if self.blocks_encrypted >= 0x8000_0000_0000 {
            return Err(CryptoError::new("Encrypted 2^47 blocks."));
        }

        let mut output: Vec<u8> = Vec::new();
        push_all(&mut output, plaintext.nonce.cc_str());
        push_all(&mut output, ciphertext.as_slice());
        proof {
            lemma_nonce_len(&plaintext.nonce);
            assert(output@ =~= datagram(self.key(), plaintext.nonce@, plaintext.text@));
            assert(output@.take(8) =~= plaintext.nonce.cc());
            assert(output@.skip(8) =~= ciphertext@);
        }
        Ok(output)
    }

    /// The message that a datagram carries. It is refused where it is too short
    /// or its tag does not fit; one that is accepted is what its message
    /// encrypts to.
    pub fn decrypt(&self, data: &[u8]) -> (r: Result<Message, CryptoError>)
        requires
            data@.len() < ocb_text_limit() + 24,
        ensures
            r is Ok <==> opened(self.key(), data@) is Some,
            r matches Ok(m) ==> opened(self.key(), data@) == Some((m.nonce@, m.text@)),
            r matches Ok(m) ==> m.nonce.wf() && m.nonce.cc() == data@.take(8),
            r matches Ok(m) ==> data@ == datagram(self.key(), m.nonce@, m.text@),
            r matches Ok(m) ==> data@.len() == m.text@.len() + 24,
            r matches Err(e) ==> e.message@ == (if data@.len() < 24 {
                "Ciphertext must contain nonce and tag."@
            } else {
                "Packet failed integrity check."@
            }),
    {
        if data.len() < 8 + TAG_LEN {
            return Err(CryptoError::new("Ciphertext must contain nonce and tag."));
        }
        let head = slice_subrange(data, 0, 8);
        let body = slice_subrange(data, 8, data.len());
        assert(head@ =~= data@.take(8));
        assert(body@ =~= data@.skip(8));
        let nonce = match MoshNonce::from_bytes(head) {
            Ok(nonce) => nonce,
            Err(e) => return Err(e),
        };
        match ocb_decrypt(self.key.data(), nonce.data(), body) {
            Ok(text) => {
                assert(data@ =~= nonce.cc() + body@);
                Ok(Message { nonce, text })
            },
            Err(_) => Err(CryptoError::new("Packet failed integrity check.")),
        }
    }
}

} // verus!
