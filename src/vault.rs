//! The vault file: an encrypted, versioned envelope around the codec bytes,
//! kept as base64 text.
//!
//! The envelope is one version byte, the twelve-byte nonce that encrypted the
//! payload, and the AES-256-GCM-SIV ciphertext with its tag. An empty file
//! stands for a vault that holds no records yet.

use crate::codec::{
    decode_entries, encode_entries, entries_bytes, fields_fit, lemma_codec_round_trip, read_entries,
};
use crate::crypto::{
    aead_open, aead_seal, base64_decode, base64_encode, base64_of, is_base64_char, seal_of,
    KEY_LEN, MAX_PLAINTEXT, NONCE_LEN, TAG_LEN,
};
use crate::entry::{distinct_ids, entries_view, ids_unique, Entry, EntryView};
use vstd::prelude::*;

verus! {

/// The envelope format written by this library.
pub const FORMAT_VERSION: u8 = 1;

/// Bytes before the ciphertext: the version and the nonce.
pub const ENVELOPE_HEADER: usize = 13;

/// What can go wrong in an engine operation.
#[derive(Debug, Clone, Copy, PartialEq, Eq, Structural)]
pub enum VaultError {
    /// The session is locked.
    Locked,
    /// The file is not base64, is too short, or its payload is not a
    /// collection of records.
    Format,
    /// The file was written in a format version this library does not read.
    UnsupportedVersion,
    /// The ciphertext does not authenticate under the key.
    Authentication,
    /// The collection is too large for the cipher.
    TooLarge,
}

/// The envelope bytes for a nonce and a ciphertext.
pub open spec fn envelope(nonce: Seq<u8>, ciphertext: Seq<u8>) -> Seq<u8> {
    seq![FORMAT_VERSION] + nonce + ciphertext
}

/// The file text that stores `es` under `key`, encrypted with `nonce`.
pub open spec fn vault_text(es: Seq<EntryView>, key: Seq<u8>, nonce: Seq<u8>) -> Seq<char> {
    base64_of(envelope(nonce, seal_of(key, nonce, entries_bytes(es))))
}

/// The collection fits the cipher, and its sealing under `key` and `nonce`
/// is its codec bytes plus the tag.
pub open spec fn sealable(es: Seq<EntryView>, key: Seq<u8>, nonce: Seq<u8>) -> bool {
    &&& entries_bytes(es).len() <= MAX_PLAINTEXT
    &&& seal_of(key, nonce, entries_bytes(es)).len() == entries_bytes(es).len() + TAG_LEN
}

/// What reading the file text `text` with `key` gives.
pub open spec fn load_result(text: Seq<char>, key: Seq<u8>) -> Result<Seq<EntryView>, VaultError> {
    if text.len() == 0 {
        Ok(Seq::empty())
    } else if !(exists|b: Seq<u8>| base64_of(b) == text) {
        Err(VaultError::Format)
    } else {
        let b = choose|b: Seq<u8>| base64_of(b) == text;
        if b.len() == 0 {
            Err(VaultError::Format)
        } else if b[0] != FORMAT_VERSION {
            Err(VaultError::UnsupportedVersion)
        } else if b.len() < ENVELOPE_HEADER + TAG_LEN {
            Err(VaultError::Format)
        } else if b.len() - ENVELOPE_HEADER > MAX_PLAINTEXT + TAG_LEN {
            Err(VaultError::Format)
        } else {
            let nonce = b.subrange(1, ENVELOPE_HEADER as int);
            let ct = b.subrange(ENVELOPE_HEADER as int, b.len() as int);
            if !(exists|p: Seq<u8>| p.len() <= MAX_PLAINTEXT && seal_of(key, nonce, p) == ct) {
                Err(VaultError::Authentication)
            } else {
                let p = choose|p: Seq<u8>| p.len() <= MAX_PLAINTEXT && seal_of(key, nonce, p) == ct;
                match read_entries(p, 0) {
                    Some(es) => if ids_unique(es) {
                        Ok(es)
                    } else {
                        Err(VaultError::Format)
                    },
                    None => Err(VaultError::Format),
                }
            }
        }
    }
}

/// Encrypts a collection under `key` with `nonce` and gives the file text.
pub fn seal_entries(es: &Vec<Entry>, key: &Vec<u8>, nonce: &Vec<u8>) -> (r: Result<String, VaultError>)
    requires
        key@.len() == KEY_LEN,
        nonce@.len() == NONCE_LEN,
    ensures
        r is Ok <==> entries_bytes(entries_view(es@)).len() <= MAX_PLAINTEXT,
        r is Ok ==> sealable(entries_view(es@), key@, nonce@),
        r is Ok ==> r->Ok_0@ == vault_text(entries_view(es@), key@, nonce@),
        r is Ok ==> forall|i: int| 0 <= i < r->Ok_0@.len() ==> is_base64_char(#[trigger] r->Ok_0@[i]),
        r is Err ==> r == Err::<String, VaultError>(VaultError::TooLarge),
        fields_fit(entries_view(es@)),
{
    let plain = encode_entries(es);
    let ct = match aead_seal(key.as_slice(), nonce.as_slice(), plain.as_slice()) {
        Some(ct) => ct,
        None => return Err(VaultError::TooLarge),
    };
    let mut bytes: Vec<u8> = Vec::new();
    bytes.push(FORMAT_VERSION);
    let mut i: usize = 0;
    while i < nonce.len()
        invariant
            i <= nonce@.len(),
            bytes@ == seq![FORMAT_VERSION] + nonce@.take(i as int),
        decreases nonce@.len() - i,
    {
        bytes.push(nonce[i]);
        assert(bytes@ =~= seq![FORMAT_VERSION] + nonce@.take(i + 1));
        i = i + 1;
    }
    assert(nonce@.take(i as int) =~= nonce@);
    let ghost head = bytes@;
    let mut j: usize = 0;
    while j < ct.len()
        invariant
            j <= ct@.len(),
            bytes@ == head + ct@.take(j as int),
        decreases ct@.len() - j,
    {
        bytes.push(ct[j]);
        assert(bytes@ =~= head + ct@.take(j + 1));
        j = j + 1;
    }
    assert(ct@.take(j as int) =~= ct@);
    assert(bytes@ =~= envelope(nonce@, ct@));
    Ok(base64_encode(bytes.as_slice()))
}

fn copy_range(b: &Vec<u8>, lo: usize, hi: usize) -> (r: Vec<u8>)
    requires
        lo <= hi <= b@.len(),
    ensures
        r@ == b@.subrange(lo as int, hi as int),
{
    let mut out: Vec<u8> = Vec::new();
    let mut i: usize = lo;
    while i < hi
        invariant
            lo <= i <= hi <= b@.len(),
            out@ == b@.subrange(lo as int, i as int),
        decreases hi - i,
    {
        out.push(b[i]);
        assert(out@ =~= b@.subrange(lo as int, i + 1));
        i = i + 1;
    }
    out
}

/// Reads the file text with `key`. An empty text is an empty vault; text
/// written by [`seal_entries`] under the same key gives back its collection.
pub fn open_entries(text: &str, key: &Vec<u8>) -> (r: Result<Vec<Entry>, VaultError>)
    requires
        key@.len() == KEY_LEN,
    ensures
        match r {
            Ok(v) => load_result(text@, key@) == Ok::<Seq<EntryView>, VaultError>(entries_view(v@)),
            Err(e) => load_result(text@, key@) == Err::<Seq<EntryView>, VaultError>(e),
        },
        forall|es: Seq<EntryView>, nonce: Seq<u8>|
            nonce.len() == NONCE_LEN && fields_fit(es) && ids_unique(es) && sealable(es, key@, nonce)
                && text@ == #[trigger] vault_text(es, key@, nonce) ==> r is Ok && entries_view(
                r->Ok_0@,
            ) == es,
        r is Ok ==> fields_fit(entries_view(r->Ok_0@)),
        r is Ok && text@.len() > 0 ==> exists|nonce: Seq<u8>|
            nonce.len() == NONCE_LEN && text@ == #[trigger] vault_text(entries_view(r->Ok_0@), key@, nonce),
{
    let decoded = base64_decode(text);
    if text.is_empty() {
        let v: Vec<Entry> = Vec::new();
        assert(entries_view(v@) =~= Seq::<EntryView>::empty());
        proof {
            assert forall|es: Seq<EntryView>, nonce: Seq<u8>|
                nonce.len() == NONCE_LEN && fields_fit(es) && ids_unique(es) && sealable(es, key@, nonce)
                    && text@ == #[trigger] vault_text(es, key@, nonce) implies entries_view(v@) == es by {
                let ct = seal_of(key@, nonce, entries_bytes(es));
                assert(envelope(nonce, ct).len() > 0);
            }
        }
        return Ok(v);
    }
    let b = match decoded {
        Some(b) => b,
        None => return Err(VaultError::Format),
    };
    proof {
        let c = choose|x: Seq<u8>| base64_of(x) == text@;
        assert(base64_of(c) == text@);
        assert(c == b@);
        assert forall|es: Seq<EntryView>, n: Seq<u8>|
            n.len() == NONCE_LEN && fields_fit(es) && ids_unique(es) && sealable(es, key@, n)
                && text@ == #[trigger] vault_text(es, key@, n)
                implies b@ == envelope(n, seal_of(key@, n, entries_bytes(es))) && b@.len() >= ENVELOPE_HEADER
                    && b@[0] == FORMAT_VERSION by {
            let env = envelope(n, seal_of(key@, n, entries_bytes(es)));
            assert(base64_of(env) == text@);
            assert(env[0] == FORMAT_VERSION);
        }
    }
    if b.len() == 0 {
        return Err(VaultError::Format);
    }
    if b[0] != FORMAT_VERSION {
        return Err(VaultError::UnsupportedVersion);
    }
    if b.len() < ENVELOPE_HEADER {
        return Err(VaultError::Format);
    }
    let nonce = copy_range(&b, 1, ENVELOPE_HEADER);
    let ct = copy_range(&b, ENVELOPE_HEADER, b.len());
    proof {
        assert forall|es: Seq<EntryView>, n: Seq<u8>|
            n.len() == NONCE_LEN && fields_fit(es) && ids_unique(es) && sealable(es, key@, n) && text@
                == #[trigger] vault_text(es, key@, n) implies ct@ == seal_of(key@, n, entries_bytes(es)) by {
            assert(b@ == envelope(n, seal_of(key@, n, entries_bytes(es))));
            assert(ct@ =~= seal_of(key@, n, entries_bytes(es)));
        }
    }
    // An envelope too short to hold a tag, or longer than any sealing the
    // cipher makes, is malformed.
    if ct.len() < TAG_LEN || ct.len() as u64 > MAX_PLAINTEXT + TAG_LEN as u64 {
        return Err(VaultError::Format);
    }
    let opened = aead_open(key.as_slice(), nonce.as_slice(), ct.as_slice());
    proof {
        assert forall|es: Seq<EntryView>, n: Seq<u8>|
            n.len() == NONCE_LEN && fields_fit(es) && ids_unique(es) && sealable(es, key@, n)
                && text@ == #[trigger] vault_text(es, key@, n)
                implies opened is Some by {
            let sealed = seal_of(key@, n, entries_bytes(es));
            assert(b@ == envelope(n, sealed));
            assert(nonce@ =~= n);
            assert(ct@ =~= sealed);
            assert(seal_of(key@, nonce@, entries_bytes(es)) == ct@);
        }
    }
    let plain = match opened {
        Some(p) => p,
        None => return Err(VaultError::Authentication),
    };
    proof {
        let c = choose|x: Seq<u8>| x.len() <= MAX_PLAINTEXT && seal_of(key@, nonce@, x) == ct@;
        assert(seal_of(key@, nonce@, c) == ct@);
        assert(c == plain@);
        assert forall|es: Seq<EntryView>, n: Seq<u8>|
            n.len() == NONCE_LEN && fields_fit(es) && ids_unique(es) && sealable(es, key@, n)
                && text@ == #[trigger] vault_text(es, key@, n)
                implies plain@ == entries_bytes(es) by {
            let sealed = seal_of(key@, n, entries_bytes(es));
            let env = envelope(n, sealed);
            assert(b@ == env);
            assert(nonce@ =~= n);
            assert(ct@ =~= sealed);
        }
    }
    let decoded_entries = decode_entries(plain.as_slice());
    proof {
        assert forall|es: Seq<EntryView>, n: Seq<u8>|
            n.len() == NONCE_LEN && fields_fit(es) && ids_unique(es) && sealable(es, key@, n)
                && text@ == #[trigger] vault_text(es, key@, n)
                implies decoded_entries is Some && entries_view(decoded_entries->Some_0@) == es by {
            lemma_codec_round_trip(es);
        }
    }
    match decoded_entries {
        Some(v) => {
            if !distinct_ids(&v) {
                return Err(VaultError::Format);
            }
            proof {
                assert(b@ =~= envelope(nonce@, ct@));
                assert(text@ == vault_text(entries_view(v@), key@, nonce@));
                assert(nonce@.len() == NONCE_LEN);
            }
            let r: Result<Vec<Entry>, VaultError> = Ok(v);
            assert(entries_view(r->Ok_0@) == entries_view(v@));
            assert(text@ == vault_text(entries_view(r->Ok_0@), key@, nonce@));
            r
        },
        None => Err(VaultError::Format),
    }
}

} // verus!
