//! The primitive cryptography of the vault: hashing, keyed hashing,
//! authenticated encryption, randomness, and per-record key derivation.

use vstd::prelude::*;
use vstd::string::StrSliceExecFns;
use vstd::string::StringExecFns;

verus! {

/// Largest plaintext, in bytes, that AES-256-GCM encrypts.
pub const PLAINTEXT_MAX: u64 = 68719476736;

/// Length in bytes of a record's salt, which is also its nonce.
pub const SALT_LEN: usize = 12;

/// Length in bytes of a derived record key.
pub const KEY_LEN: usize = 32;

/// The SHA-256 digest of `data`.
pub uninterp spec fn sha256_of(data: Seq<u8>) -> Seq<u8>;

/// HMAC-SHA256 of `msg` under `key`.
pub uninterp spec fn hmac_sha256_of(key: Seq<u8>, msg: Seq<u8>) -> Seq<u8>;

/// AES-256-GCM ciphertext, tag appended, of `plaintext` under `key` and `nonce`.
pub uninterp spec fn aes_gcm_sealed(key: Seq<u8>, nonce: Seq<u8>, plaintext: Seq<u8>) -> Seq<u8>;

/// What AES-256-GCM decryption of `ciphertext` under `key` and `nonce` yields,
/// if its authentication tag checks.
pub uninterp spec fn aes_gcm_opened(key: Seq<u8>, nonce: Seq<u8>, ciphertext: Seq<u8>) -> Option<
    Seq<u8>,
>;

#[verifier::external_type_specification]
#[verifier::external_body]
pub struct ExAeadError(aes_gcm::Error);

/// Relies on sha2::Sha256::digest: a 32-byte digest that depends on the input alone.
#[verifier::external_body]
pub(crate) fn sha256(data: &[u8]) -> (r: Vec<u8>)
    ensures
        r@ == sha256_of(data@),
        r@.len() == KEY_LEN,
{
    <sha2::Sha256 as sha2::Digest>::digest(data).to_vec()
}

/// Relies on hmac::Hmac<Sha256>: HMAC accepts a key of any length, and its
/// 32-byte output depends on the key and the message alone.
#[verifier::external_body]
pub(crate) fn hmac_sha256(key: &[u8], msg: &[u8]) -> (r: Vec<u8>)
    ensures
        r@ == hmac_sha256_of(key@, msg@),
        r@.len() == 32,
{
    let mut mac = <hmac::Hmac<sha2::Sha256> as hmac::digest::KeyInit>::new_from_slice(key)
        .expect("HMAC takes keys of any length");
    hmac::Mac::update(&mut mac, msg);
    hmac::Mac::finalize(mac).into_bytes().to_vec()
}

/// Relies on aes_gcm::Aes256Gcm's `Aead::encrypt`: it fails only on a
/// plaintext longer than its limit, and the ciphertext, the plaintext's
/// length plus a 16-byte tag, depends on key, nonce and plaintext alone.
/// `Key::from_slice` and `Nonce::from_slice` need the exact lengths.
#[verifier::external_body]
pub(crate) fn aes_gcm_encrypt(key: &[u8], nonce: &[u8], plaintext: &[u8]) -> (r: Result<
    Vec<u8>,
    aes_gcm::Error,
>)
    requires
        key@.len() == KEY_LEN,
        nonce@.len() == SALT_LEN,
    ensures
        r is Ok <==> plaintext@.len() <= PLAINTEXT_MAX,
        r is Ok ==> r->Ok_0@ == aes_gcm_sealed(key@, nonce@, plaintext@),
        r is Ok ==> r->Ok_0@.len() == plaintext@.len() + 16,
{
    let cipher = <aes_gcm::Aes256Gcm as aes_gcm::KeyInit>::new(
        aes_gcm::Key::<aes_gcm::Aes256Gcm>::from_slice(key),
    );
    aes_gcm::aead::Aead::encrypt(&cipher, aes_gcm::Nonce::from_slice(nonce), plaintext)
}

/// Relies on aes_gcm::Aes256Gcm's `Aead::decrypt`: it returns a plaintext
/// exactly when the tag checks; that plaintext encrypts back to the given
/// ciphertext, and the ciphertext of any plaintext within the limit decrypts
/// to that plaintext.
#[verifier::external_body]
pub(crate) fn aes_gcm_decrypt(key: &[u8], nonce: &[u8], ciphertext: &[u8]) -> (r: Result<
    Vec<u8>,
    aes_gcm::Error,
>)
    requires
        key@.len() == KEY_LEN,
        nonce@.len() == SALT_LEN,
    ensures
        r is Ok <==> aes_gcm_opened(key@, nonce@, ciphertext@) is Some,
        r is Ok ==> r->Ok_0@ == aes_gcm_opened(key@, nonce@, ciphertext@)->Some_0,
        r is Ok ==> aes_gcm_sealed(key@, nonce@, r->Ok_0@) == ciphertext@,
        forall|p: Seq<u8>|
            p.len() <= PLAINTEXT_MAX && ciphertext@ == aes_gcm_sealed(key@, nonce@, p) ==> (r is Ok
                && r->Ok_0@ == p),
{
    let cipher = <aes_gcm::Aes256Gcm as aes_gcm::KeyInit>::new(
        aes_gcm::Key::<aes_gcm::Aes256Gcm>::from_slice(key),
    );
    aes_gcm::aead::Aead::decrypt(&cipher, aes_gcm::Nonce::from_slice(nonce), ciphertext)
}

/// Relies on rand::random: twelve bytes from the thread-local generator.
#[verifier::external_body]
pub(crate) fn random_salt() -> (r: Vec<u8>)
    ensures
        r@.len() == SALT_LEN,
{
    rand::random::<[u8; 12]>().to_vec()
}

/// An ASCII letter or digit.
pub open spec fn is_alphanumeric(c: char) -> bool {
    ('0' <= c && c <= '9') || ('a' <= c && c <= 'z') || ('A' <= c && c <= 'Z')
}

/// Relies on rand's `Alphanumeric::sample_string`: `len` characters, each an
/// ASCII letter or digit.
#[verifier::external_body]
pub(crate) fn sample_alphanumeric(len: usize) -> (r: String)
    ensures
        r@.len() == len,
        forall|i: int| 0 <= i < r@.len() ==> is_alphanumeric(#[trigger] r@[i]),
{
    rand::distr::SampleString::sample_string(&rand::distr::Alphanumeric, &mut rand::rng(), len)
}

/// The text hashed into a record key: the salt's first twelve characters,
/// then the master key, then the rest of the salt.
pub open spec fn key_material(salt: Seq<char>, master: Seq<char>) -> Seq<char> {
    salt.subrange(0, 12) + master + salt.subrange(12, salt.len() as int)
}

/// The encryption key of the record with hexadecimal salt `salt` under `master`.
pub open spec fn record_key(salt: Seq<char>, master: Seq<char>) -> Seq<u8> {
    sha256_of(vstd::utf8::encode_utf8(key_material(salt, master)))
}

/// Derives a record's key from its hexadecimal salt and the master key.
pub fn derive_key(salt: &str, master: &str) -> (r: Vec<u8>)
    requires
        salt@.len() == 2 * SALT_LEN,
    ensures
        r@ == record_key(salt@, master@),
        r@.len() == KEY_LEN,
{
    let mut material = String::new();
    material.append(salt.substring_char(0, 12));
    material.append(master);
    material.append(salt.substring_char(12, 24));
    proof {
        assert(material@ =~= key_material(salt@, master@));
    }
    sha256(material.as_str().as_bytes())
}

} // verus!
