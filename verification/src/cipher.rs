//! AES-256-GCM, by which chunks are encrypted.

use aes_gcm::aead::{Aead, AeadCore, KeyInit, OsRng};
use aes_gcm::{Aes256Gcm, Key, Nonce};
use rand::RngCore;
use vstd::prelude::*;

verus! {

/// The longest plaintext that AES-GCM takes, in bytes.
pub const MAX_PLAINTEXT: u64 = 0x10_0000_0000;

/// The number of bytes by which a ciphertext is longer than its plaintext.
pub const TAG_LEN: usize = 16;

/// What AES-256-GCM makes of a plaintext under a key and a nonce: the ciphertext and
/// the tag behind it.
pub uninterp spec fn aes256gcm_seal(key: Seq<u8>, nonce: Seq<u8>, plaintext: Seq<u8>) -> Seq<u8>;

/// What AES-256-GCM reads from a ciphertext with its tag; `None` where the tag is wrong.
pub uninterp spec fn aes256gcm_open(key: Seq<u8>, nonce: Seq<u8>, sealed: Seq<u8>) -> Option<
    Seq<u8>,
>;

/// Whether a plaintext of `len` bytes can be encrypted, and its ciphertext be held.
pub open spec fn sealable(len: nat) -> bool {
    len <= MAX_PLAINTEXT && len + TAG_LEN <= isize::MAX
}

/// Calls `aes_gcm::aead::Aead::encrypt` of `Aes256Gcm`. Claims that it refuses a
/// plaintext that is too long and no other, that what it returns is a function of the
/// key, the nonce and the plaintext, longer than the plaintext by the tag, and that
/// decryption gives the plaintext back.
#[verifier::external_body]
fn seal(plaintext: &[u8], key: &[u8; 32], nonce: &[u8; 12]) -> (sealed: Option<Vec<u8>>)
    requires
        plaintext@.len() + TAG_LEN <= isize::MAX,
    ensures
        match sealed {
            Some(sealed) => {
                &&& plaintext@.len() <= MAX_PLAINTEXT
                &&& sealed@ == aes256gcm_seal(key@, nonce@, plaintext@)
                &&& sealed@.len() == plaintext@.len() + TAG_LEN
                &&& aes256gcm_open(key@, nonce@, sealed@) == Some(plaintext@)
            },
            None => plaintext@.len() > MAX_PLAINTEXT,
        },
{
    let cipher = Aes256Gcm::new(Key::<Aes256Gcm>::from_slice(key));
    cipher.encrypt(Nonce::from_slice(nonce), plaintext).ok()
}

/// Calls `aes_gcm::aead::Aead::decrypt` of `Aes256Gcm`. Claims that what it returns is a
/// function of the key, the nonce and the ciphertext, and that a plaintext comes out
/// only of the ciphertext that encryption makes of it.
#[verifier::external_body]
fn open(sealed: &[u8], key: &[u8; 32], nonce: &[u8; 12]) -> (plaintext: Option<Vec<u8>>)
    ensures
        match plaintext {
            Some(plaintext) => {
                &&& aes256gcm_open(key@, nonce@, sealed@) == Some(plaintext@)
                &&& sealed@.len() == plaintext@.len() + TAG_LEN
                &&& plaintext@.len() <= MAX_PLAINTEXT ==> sealed@ == aes256gcm_seal(
                    key@,
                    nonce@,
                    plaintext@,
                )
            },
            None => aes256gcm_open(key@, nonce@, sealed@) is None,
        },
{
    let cipher = Aes256Gcm::new(Key::<Aes256Gcm>::from_slice(key));
    cipher.decrypt(Nonce::from_slice(nonce), sealed).ok()
}

/// Calls `rand::RngCore::fill_bytes` of the operating system's generator. Nothing is
/// claimed of the bytes, which rest on chance. The call panics where the operating
/// system has no random bytes to give.
#[verifier::external_body]
fn random_key() -> [u8; 32] {
    let mut key = [0u8; 32];
    OsRng.fill_bytes(&mut key);
    key
}

/// Calls `aes_gcm::aead::AeadCore::generate_nonce` of `Aes256Gcm` with the operating
/// system's generator. Nothing is claimed of the bytes, which rest on chance. The call
/// panics where the operating system has no random bytes to give.
#[verifier::external_body]
fn random_nonce() -> [u8; 12] {
    Aes256Gcm::generate_nonce(&mut OsRng).into()
}

/// Whether `key` is one that the operating system's generator can give.
pub closed spec fn key_drawn(key: [u8; 32]) -> bool {
    call_ensures(random_key, (), key)
}

/// Whether `nonce` is one that the operating system's generator can give.
pub closed spec fn nonce_drawn(nonce: [u8; 12]) -> bool {
    call_ensures(random_nonce, (), nonce)
}

/// A key that was drawn came from the operating system's generator.
proof fn drawn_key_came_from_the_generator(key: [u8; 32])
    requires
        key_drawn(key),
    ensures
        call_ensures(random_key, (), key),
{
}

/// A nonce that was drawn came from the operating system's generator.
proof fn drawn_nonce_came_from_the_generator(nonce: [u8; 12])
    requires
        nonce_drawn(nonce),
    ensures
        call_ensures(random_nonce, (), nonce),
{
}

/// AES-256-GCM with random keys and nonces.
pub struct AesEncryption;

impl AesEncryption {
    /// A random key.
    pub fn generate_key() -> (key: [u8; 32])
        ensures
            key_drawn(key),
    {
        let key = random_key();
        assert(call_ensures(random_key, (), key));
        key
    }

    /// Encrypts `data` under `key` and `nonce`.
    pub fn encrypt_with_nonce(data: &[u8], key: &[u8; 32], nonce: &[u8; 12]) -> (ciphertext: Vec<
        u8,
    >)
        requires
            sealable(data@.len()),
        ensures
            ciphertext@ == aes256gcm_seal(key@, nonce@, data@),
            ciphertext@.len() == data@.len() + TAG_LEN,
            aes256gcm_open(key@, nonce@, ciphertext@) == Some(data@),
    {
        seal(data, key, nonce).unwrap()
    }

    /// Encrypts `data` under `key` and a random nonce. Returns the ciphertext and the
    /// nonce.
    pub fn encrypt(data: &[u8], key: &[u8; 32]) -> (encrypted: (Vec<u8>, [u8; 12]))
        requires
            sealable(data@.len()),
        ensures
            nonce_drawn(encrypted.1),
            encrypted.0@ == aes256gcm_seal(key@, encrypted.1@, data@),
            encrypted.0@.len() == data@.len() + TAG_LEN,
            aes256gcm_open(key@, encrypted.1@, encrypted.0@) == Some(data@),
    {
        let nonce = random_nonce();
        assert(call_ensures(random_nonce, (), nonce));
        (Self::encrypt_with_nonce(data, key, &nonce), nonce)
    }

    /// Decrypts `ciphertext`; `None` where it was not made under `key` and `nonce`.
    pub fn decrypt(ciphertext: &[u8], nonce: &[u8; 12], key: &[u8; 32]) -> (data: Option<Vec<u8>>)
        ensures
            match data {
                Some(data) => {
                    &&& aes256gcm_open(key@, nonce@, ciphertext@) == Some(data@)
                    &&& ciphertext@.len() == data@.len() + TAG_LEN
                    &&& data@.len() <= MAX_PLAINTEXT ==> ciphertext@ == aes256gcm_seal(
                        key@,
                        nonce@,
                        data@,
                    )
                },
                None => aes256gcm_open(key@, nonce@, ciphertext@) is None,
            },
    {
        open(ciphertext, key, nonce)
    }
}

} // verus!
