//! Trusted bridges to the hashing, encryption and encoding crates and to the
//! few std string functions that need a stated contract, and the key and
//! verifier derivations built on them.
//!
//! The key and the verifier are both SHA-256 digests of the password's UTF-8
//! bytes, each behind its own one-byte domain tag, so the verifier held by a
//! session does not reveal the file key.

use aes_gcm_siv::aead::rand_core::RngCore;
use aes_gcm_siv::aead::{Aead, KeyInit, OsRng};
use aes_gcm_siv::{Aes256GcmSiv, Key, Nonce};
use base64::engine::general_purpose::STANDARD as BASE64;
use base64::Engine;
use sha2::{Digest, Sha256};
use vstd::prelude::*;
use vstd::utf8::{decode_utf8, encode_utf8, valid_utf8};

verus! {

/// Bytes in a derived key.
pub const KEY_LEN: usize = 32;

/// Bytes in an encryption nonce.
pub const NONCE_LEN: usize = 12;

/// The largest plaintext, in bytes, that AES-256-GCM-SIV accepts.
pub const MAX_PLAINTEXT: u64 = 68719476736;

/// SHA-256 digest of a byte string.
pub uninterp spec fn sha256_of(data: Seq<u8>) -> Seq<u8>;

/// AES-256-GCM-SIV ciphertext with its tag, without associated data.
pub uninterp spec fn seal_of(key: Seq<u8>, nonce: Seq<u8>, plaintext: Seq<u8>) -> Seq<u8>;

/// Standard, padded base64 text of a byte string.
pub uninterp spec fn base64_of(data: Seq<u8>) -> Seq<char>;

/// Bytes the cipher appends to a plaintext: the authentication tag.
pub const TAG_LEN: usize = 16;

/// True of the characters of padded standard base64: `A`-`Z`, `a`-`z`,
/// `0`-`9`, `+`, `/` and `=`.
pub open spec fn is_base64_char(c: char) -> bool {
    ('A' <= c <= 'Z') || ('a' <= c <= 'z') || ('0' <= c <= '9') || c == '+' || c == '/' || c == '='
}

/// True when `needle` occurs as a contiguous run inside `hay`.
pub open spec fn is_substring(needle: Seq<char>, hay: Seq<char>) -> bool {
    exists|i: int| 0 <= i && i + needle.len() <= hay.len() && #[trigger] hay.subrange(i, i + needle.len()) == needle
}

/// Relies on sha2::Sha256::digest: the SHA-256 digest, 32 bytes long.
#[verifier::external_body]
pub(crate) fn sha256(data: &[u8]) -> (r: Vec<u8>)
    ensures
        r@ == sha256_of(data@),
        r@.len() == KEY_LEN,
{
    Sha256::digest(data).to_vec()
}

/// Relies on aes_gcm_siv's `Aead::encrypt` for Aes256GcmSiv with no associated
/// data: it fails exactly when the plaintext exceeds `P_MAX` bytes.
#[verifier::external_body]
pub(crate) fn aead_seal(key: &[u8], nonce: &[u8], plaintext: &[u8]) -> (r: Option<Vec<u8>>)
    requires
        key@.len() == KEY_LEN,
        nonce@.len() == NONCE_LEN,
    ensures
        r is Some <==> plaintext@.len() <= MAX_PLAINTEXT,
        r is Some ==> r->Some_0@ == seal_of(key@, nonce@, plaintext@),
        r is Some ==> r->Some_0@.len() == plaintext@.len() + TAG_LEN,
{
    let cipher = Aes256GcmSiv::new(Key::<Aes256GcmSiv>::from_slice(key));
    cipher.encrypt(Nonce::from_slice(nonce), plaintext).ok()
}

/// Relies on aes_gcm_siv's `Aead::decrypt` for Aes256GcmSiv with no associated
/// data: it returns a plaintext exactly when the ciphertext is that
/// plaintext's sealing under this key and nonce (the tag is recomputed over
/// the decrypted text and compared). The tag is split off first, so with the
/// ciphertext held to `P_MAX` plus the tag, a plaintext is at most `P_MAX`.
#[verifier::external_body]
pub(crate) fn aead_open(key: &[u8], nonce: &[u8], ciphertext: &[u8]) -> (r: Option<Vec<u8>>)
    requires
        key@.len() == KEY_LEN,
        nonce@.len() == NONCE_LEN,
        ciphertext@.len() <= MAX_PLAINTEXT + TAG_LEN,
    ensures
        r is Some ==> seal_of(key@, nonce@, r->Some_0@) == ciphertext@,
        r is Some ==> r->Some_0@.len() <= MAX_PLAINTEXT && ciphertext@.len() == r->Some_0@.len()
            + TAG_LEN,
        forall|p: Seq<u8>|
            p.len() <= MAX_PLAINTEXT && #[trigger] seal_of(key@, nonce@, p) == ciphertext@ ==> r is Some
                && r->Some_0@ == p,
{
    let cipher = Aes256GcmSiv::new(Key::<Aes256GcmSiv>::from_slice(key));
    cipher.decrypt(Nonce::from_slice(nonce), ciphertext).ok()
}

/// Relies on `OsRng::try_fill_bytes` (rand_core, through aead) over the
/// cipher's nonce type: `None` when the operating system's random source
/// fails, else a random nonce of the cipher's nonce size.
#[verifier::external_body]
fn random_nonce() -> (r: Option<Vec<u8>>)
    ensures
        r is Some ==> r->Some_0@.len() == NONCE_LEN,
{
    let mut nonce = Nonce::default();
    OsRng.try_fill_bytes(&mut nonce).ok().map(|_| nonce.to_vec())
}

/// Relies on base64's `STANDARD` engine `encode`: padded output, four
/// characters of the standard alphabet for every started group of three bytes.
#[verifier::external_body]
pub(crate) fn base64_encode(data: &[u8]) -> (r: String)
    ensures
        r@ == base64_of(data@),
        r@.len() == 4 * ((data@.len() + 2) / 3),
        forall|i: int| 0 <= i < r@.len() ==> is_base64_char(#[trigger] r@[i]),
{
    BASE64.encode(data)
}

/// Relies on base64's `STANDARD` engine `decode`, which requires canonical
/// padding and rejects non-zero trailing bits: it accepts exactly the texts
/// that `encode` produces, and returns the bytes they encode.
#[verifier::external_body]
pub(crate) fn base64_decode(text: &str) -> (r: Option<Vec<u8>>)
    ensures
        r is Some ==> base64_of(r->Some_0@) == text@,
        text@.len() == 0 ==> r is Some && r->Some_0@.len() == 0,
        forall|b: Seq<u8>| #[trigger] base64_of(b) == text@ ==> r is Some && r->Some_0@ == b,
{
    BASE64.decode(text).ok()
}

/// Relies on `String::from_utf8`: it succeeds exactly on valid UTF-8.
#[verifier::external_body]
pub(crate) fn string_from_utf8(bytes: Vec<u8>) -> (r: Option<String>)
    ensures
        r is Some <==> valid_utf8(bytes@),
        r is Some ==> r->Some_0@ == decode_utf8(bytes@),
{
    String::from_utf8(bytes).ok()
}

/// Relies on `str::contains` with a `&str` pattern.
#[verifier::external_body]
pub(crate) fn str_contains(hay: &str, needle: &str) -> (r: bool)
    ensures
        r == is_substring(needle@, hay@),
{
    hay.contains(needle)
}

/// Domain tag prefixed to the password bytes when deriving the file key.
pub const KEY_TAG: u8 = 1;

/// Domain tag prefixed to the password bytes when deriving the verifier.
pub const VERIFIER_TAG: u8 = 2;

/// The encryption key derived from a password.
pub open spec fn key_of(password: Seq<char>) -> Seq<u8> {
    sha256_of(seq![KEY_TAG] + encode_utf8(password))
}

/// The one-way verifier of a password; it is not the encryption key.
pub open spec fn verifier_of(password: Seq<char>) -> Seq<u8> {
    sha256_of(seq![VERIFIER_TAG] + encode_utf8(password))
}

/// The tag byte followed by the UTF-8 bytes of `text`.
fn tagged_bytes(tag: u8, text: &str) -> (r: Vec<u8>)
    ensures
        r@ == seq![tag] + encode_utf8(text@),
{
    let bytes = text.as_bytes();
    let mut out: Vec<u8> = Vec::new();
    out.push(tag);
    let mut i: usize = 0;
    while i < bytes.len()
        invariant
            bytes@ == encode_utf8(text@),
            i <= bytes@.len(),
            out@ == seq![tag] + bytes@.subrange(0, i as int),
        decreases bytes@.len() - i,
    {
        out.push(bytes[i]);
        i = i + 1;
        assert(out@ =~= seq![tag] + bytes@.subrange(0, i as int));
    }
    assert(bytes@.subrange(0, i as int) =~= bytes@);
    out
}

/// Derives the 256-bit encryption key of the vault file from a password.
pub fn derive_key(password: &str) -> (r: Vec<u8>)
    ensures
        r@ == key_of(password@),
        r@.len() == KEY_LEN,
{
    let input = tagged_bytes(KEY_TAG, password);
    sha256(input.as_slice())
}

/// Derives the verifier that confirms a candidate master password.
pub fn digest(password: &str) -> (r: Vec<u8>)
    ensures
        r@ == verifier_of(password@),
        r@.len() == KEY_LEN,
{
    let input = tagged_bytes(VERIFIER_TAG, password);
    sha256(input.as_slice())
}

/// A fresh random nonce for one encryption; `None` when the operating
/// system's random source fails.
pub fn new_nonce() -> (r: Option<Vec<u8>>)
    ensures
        r is Some ==> r->Some_0@.len() == NONCE_LEN,
{
    random_nonce()
}

} // verus!
