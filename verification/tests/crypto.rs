use aead::{Aead, KeyInit, Nonce};
use aes::Aes128;
use mosh_rs::crypto::{
    make_nonce_val, nonce_is_to_client, nonce_seq, Base64Key, CryptoError, Message, MoshNonce,
    Session, NONCE_LEN, TAG_LEN,
};
use mosh_rs::radix64::encode_unpadded;
use ocb3::Ocb3;

fn counting_key() -> Base64Key {
    let mut data = [0u8; 16];
    for i in 0..16 {
        data[i] = i as u8;
    }
    Base64Key::from_data(data)
}

#[test]
fn printable_key_is_base64_without_padding() {
    assert_eq!(counting_key().printable_key(), "AAECAwQFBgcICQoLDA0ODw");
    assert_eq!(Base64Key::from_data([0xff; 16]).printable_key(), "/////////////////////w");
    assert_eq!(Base64Key::from_data([0; 16]).printable_key().len(), 22);
    let mut printed: Vec<String> = Vec::new();
    for i in 0..16 {
        for bit in 0..8 {
            let mut data = [0u8; 16];
            data[i] = 1 << bit;
            printed.push(Base64Key::from_data(data).printable_key());
        }
    }
    printed.sort();
    printed.dedup();
    assert_eq!(printed.len(), 128);
}

#[test]
fn base64_of_every_length() {
    assert_eq!(encode_unpadded(b""), "");
    assert_eq!(encode_unpadded(b"f"), "Zg");
    assert_eq!(encode_unpadded(b"fo"), "Zm8");
    assert_eq!(encode_unpadded(b"foo"), "Zm9v");
    assert_eq!(encode_unpadded(b"foobar"), "Zm9vYmFy");
}

#[test]
fn key_keeps_its_bytes() {
    let key = counting_key();
    assert_eq!(key.data()[15], 15);
    assert_eq!(key.clone().data(), key.data());
}

#[test]
fn fresh_keys_differ() {
    assert_ne!(Base64Key::new().data(), Base64Key::new().data());
}

#[test]
fn nonce_of_a_number() {
    let nonce = MoshNonce::from_val(0x0102_0304_0506_0708);
    assert_eq!(nonce.data(), &[0, 0, 0, 0, 1, 2, 3, 4, 5, 6, 7, 8]);
    assert_eq!(nonce.cc_str(), &[1, 2, 3, 4, 5, 6, 7, 8]);
    assert_eq!(nonce.val(), 0x0102_0304_0506_0708);
    assert_eq!(nonce.clone().val(), nonce.val());
    assert_eq!(NONCE_LEN, 12);
    assert_eq!(TAG_LEN, 16);
}

#[test]
fn nonce_of_bytes() {
    let nonce = MoshNonce::from_bytes(&[0xff, 0, 0, 0, 0, 0, 0, 1]).unwrap();
    assert_eq!(nonce.val(), 0xff00_0000_0000_0001);
    assert_eq!(nonce.data()[..4], [0, 0, 0, 0]);
    for len in [0, 7, 9] {
        let err = MoshNonce::from_bytes(&vec![1; len]).unwrap_err();
        assert_eq!(err.message, "Nonce representation must be 8 octets long.");
    }
}

#[test]
fn nonce_fields() {
    assert_eq!(make_nonce_val(true, 5), 0x8000_0000_0000_0005);
    assert_eq!(make_nonce_val(false, 5), 5);
    assert_eq!(make_nonce_val(false, u64::MAX), 0x7fff_ffff_ffff_ffff);
    assert!(nonce_is_to_client(0x8000_0000_0000_0005));
    assert!(!nonce_is_to_client(0x7fff_ffff_ffff_ffff));
    assert_eq!(nonce_seq(0x8000_0000_0000_0005), 5);
    for seq in [0u64, 1, 77, (1 << 63) - 1] {
        for to_client in [false, true] {
            let val = make_nonce_val(to_client, seq);
            assert_eq!(nonce_is_to_client(val), to_client);
            assert_eq!(nonce_seq(val), seq);
        }
    }
}

#[test]
fn datagram_is_nonce_then_ocb() {
    let key = counting_key();
    let mut session = Session::new(&key).unwrap();
    for len in [0usize, 1, 15, 16, 17, 1000] {
        let text: Vec<u8> = (0..len).map(|i| (i * 7) as u8).collect();
        let nonce = MoshNonce::from_val(0x8000_0000_0000_0000 + len as u64);
        let cipher = Ocb3::<Aes128>::new(key.data().into());
        let body =
            cipher.encrypt(Nonce::<Ocb3<Aes128>>::from_slice(nonce.data()), &text[..]).unwrap();
        let mut expected = nonce.cc_str().to_vec();
        expected.extend_from_slice(&body);
        let data = session.encrypt(&Message { nonce, text: text.clone() }).unwrap();
        assert_eq!(data, expected);
        assert_eq!(data.len(), len + 24);
        assert!(len == 0 || data[8..8 + len] != text[..]);
    }
}

#[test]
fn decrypt_gives_the_message_back() {
    let key = Base64Key::new();
    let mut session = Session::new(&key).unwrap();
    let nonce = MoshNonce::from_val(42);
    let data = session.encrypt(&Message { nonce, text: b"hello".to_vec() }).unwrap();
    let message = session.decrypt(&data).unwrap();
    assert_eq!(message.text, b"hello");
    assert_eq!(message.nonce.val(), 42);
}

#[test]
fn decrypt_refuses_what_is_not_genuine() {
    let key = counting_key();
    let mut session = Session::new(&key).unwrap();
    let nonce = MoshNonce::from_val(7);
    let data = session.encrypt(&Message { nonce, text: b"text".to_vec() }).unwrap();
    for i in 0..data.len() {
        let mut bad = data.clone();
        bad[i] ^= 1;
        assert_eq!(
            session.decrypt(&bad).err().unwrap().message,
            "Packet failed integrity check."
        );
    }
    let other = Session::new(&Base64Key::from_data([9; 16])).unwrap();
    assert_eq!(other.decrypt(&data).err().unwrap().message, "Packet failed integrity check.");
    for len in [0, 8, 23] {
        assert_eq!(
            session.decrypt(&data[..len]).err().unwrap().message,
            "Ciphertext must contain nonce and tag."
        );
    }
    assert_eq!(
        session.decrypt(&data[..24]).err().unwrap().message,
        "Packet failed integrity check."
    );
}

#[test]
fn error_tells_its_message() {
    let err = CryptoError::new("no");
    assert_eq!(err.to_string(), "no");
    assert_eq!(err.message, "no");
}
