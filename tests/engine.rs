use base64::Engine;
use password_bunker::codec::{decode_entries, encode_entries};
use password_bunker::crypto::{derive_key, digest, new_nonce};
use password_bunker::entry::Entry;
use password_bunker::session::Session;
use password_bunker::vault::{open_entries, seal_entries, VaultError};

fn entry(id: &str, link: &str, user: &str, pass: &str, notes: &str) -> Entry {
    Entry::new(
        id.to_string(),
        link.to_string(),
        user.to_string(),
        pass.to_string(),
        notes.to_string(),
    )
}

fn nonce() -> Vec<u8> {
    new_nonce().expect("the system random source works")
}

fn sample() -> Vec<Entry> {
    vec![
        entry("1", "example.com", "bob", "x", ""),
        entry("2", "mail.test", "alice", "p\u{e9}ss \"quoted\"", "line1\nline2"),
        entry("3", "bank.example", "carol", "", "\u{1f511} key"),
    ]
}

#[test]
fn fresh_unlock_without_file_is_empty() {
    for pw in ["", "hunter2", "\u{fc}ber"] {
        let mut s = Session::new();
        assert!(s.unlock(pw, None));
        assert!(s.is_unlocked());
        assert_eq!(s.list_entries("").unwrap(), Vec::<Entry>::new());
    }
}

#[test]
fn fresh_unlock_with_empty_file_is_empty() {
    let mut s = Session::new();
    assert!(s.unlock("anything", Some("")));
    assert_eq!(s.list_entries("").unwrap(), Vec::<Entry>::new());
}

#[test]
fn round_trip_keeps_order_and_fields() {
    let key = derive_key("hunter2");
    let es = sample();
    let text = seal_entries(&es, &key, &nonce()).unwrap();
    assert_eq!(open_entries(&text, &key).unwrap(), es);
}

#[test]
fn round_trip_of_empty_collection() {
    let key = derive_key("pw");
    let text = seal_entries(&Vec::new(), &key, &nonce()).unwrap();
    assert!(!text.is_empty());
    assert_eq!(open_entries(&text, &key).unwrap(), Vec::<Entry>::new());
}

#[test]
fn wrong_key_fails_authentication() {
    let text = seal_entries(&sample(), &derive_key("p1"), &nonce()).unwrap();
    assert_eq!(open_entries(&text, &derive_key("p2")), Err(VaultError::Authentication));
}

#[test]
fn corrupt_file_is_a_format_error() {
    let key = derive_key("pw");
    assert_eq!(open_entries("not base64 at all!", &key), Err(VaultError::Format));
    // "AQID" is base64 of [1, 2, 3]: right version, too short for a nonce.
    assert_eq!(open_entries("AQID", &key), Err(VaultError::Format));
}

#[test]
fn other_version_is_unsupported() {
    let key = derive_key("pw");
    // "AgID" is base64 of [2, 2, 3].
    assert_eq!(open_entries("AgID", &key), Err(VaultError::UnsupportedVersion));
}

#[test]
fn tampered_ciphertext_fails_authentication() {
    let key = derive_key("pw");
    let text = seal_entries(&sample(), &key, &nonce()).unwrap();
    let mut chars: Vec<char> = text.chars().collect();
    let i = chars.len() / 2;
    chars[i] = if chars[i] == 'A' { 'B' } else { 'A' };
    let tampered: String = chars.into_iter().collect();
    assert_eq!(open_entries(&tampered, &key), Err(VaultError::Authentication));
}

#[test]
fn fresh_nonce_per_encryption() {
    let key = derive_key("pw");
    let a = seal_entries(&sample(), &key, &nonce()).unwrap();
    let b = seal_entries(&sample(), &key, &nonce()).unwrap();
    assert_ne!(a, b);
    assert_eq!(nonce().len(), 12);
    assert_ne!(nonce(), nonce());
}

#[test]
fn codec_exact_bytes() {
    let bytes = encode_entries(&vec![entry("1", "ab", "", "x", "\u{e9}")]);
    let mut expected = Vec::new();
    for field in ["1", "ab", "", "x", "\u{e9}"] {
        expected.extend_from_slice(format!("{:016x}", field.len()).as_bytes());
        expected.extend_from_slice(field.as_bytes());
    }
    assert_eq!(bytes, expected);
    assert_eq!(&bytes[..16], b"0000000000000001");
    assert_eq!(decode_entries(&bytes).unwrap(), vec![entry("1", "ab", "", "x", "\u{e9}")]);
}

#[test]
fn codec_round_trip_and_rejects() {
    let es = sample();
    let bytes = encode_entries(&es);
    assert_eq!(decode_entries(&bytes).unwrap(), es);
    assert_eq!(decode_entries(&[]).unwrap(), Vec::<Entry>::new());
    assert!(decode_entries(&bytes[..bytes.len() - 1]).is_none());
    assert!(decode_entries(b"000000000000000Z").is_none());
    assert!(decode_entries(b"0000000000000001").is_none());
}

#[test]
fn key_and_verifier_differ_and_are_deterministic() {
    assert_eq!(derive_key("hunter2").len(), 32);
    assert_eq!(derive_key("hunter2"), derive_key("hunter2"));
    assert_ne!(derive_key("hunter2"), digest("hunter2"));
    assert_ne!(derive_key("hunter2"), derive_key("hunter3"));
    assert_ne!(digest("a"), digest("b"));
}

#[test]
fn locked_operations_fail() {
    let mut s = Session::new();
    let n = nonce();
    assert_eq!(s.list_entries(""), Err(VaultError::Locked));
    assert_eq!(s.save_entry(entry("1", "a", "b", "c", "d"), &n), Err(VaultError::Locked));
    assert_eq!(s.delete_entry(&"1".to_string(), &n), Err(VaultError::Locked));
    assert_eq!(s.change_master_password("a", "b", &n), Err(VaultError::Locked));
}

#[test]
fn lock_twice_equals_once() {
    let mut s = Session::new();
    assert!(s.unlock("pw", None));
    s.save_entry(entry("1", "a", "b", "c", "d"), &nonce()).unwrap();
    s.lock();
    assert!(!s.is_unlocked());
    s.lock();
    assert!(!s.is_unlocked());
    assert_eq!(s.list_entries(""), Err(VaultError::Locked));
    assert!(s.unlock("other", None));
    assert_eq!(s.list_entries("").unwrap(), Vec::<Entry>::new());
}

#[test]
fn save_replaces_in_place_or_appends() {
    let mut s = Session::new();
    assert!(s.unlock("pw", None));
    let n = nonce();
    s.save_entry(entry("a", "one.com", "u1", "p1", ""), &n).unwrap();
    s.save_entry(entry("b", "two.com", "u2", "p2", ""), &n).unwrap();
    s.save_entry(entry("c", "three.com", "u3", "p3", ""), &n).unwrap();
    s.save_entry(entry("b", "new.com", "nu", "np", "changed"), &n).unwrap();
    assert_eq!(
        s.list_entries("").unwrap(),
        vec![
            entry("a", "one.com", "u1", "p1", ""),
            entry("b", "new.com", "nu", "np", "changed"),
            entry("c", "three.com", "u3", "p3", ""),
        ]
    );
}

#[test]
fn delete_removes_and_ignores_unknown_ids() {
    let mut s = Session::new();
    assert!(s.unlock("pw", None));
    let n = nonce();
    s.save_entry(entry("a", "one.com", "u1", "p1", ""), &n).unwrap();
    let text = s.save_entry(entry("b", "two.com", "u2", "p2", ""), &n).unwrap();
    let after = s.delete_entry(&"zzz".to_string(), &n).unwrap();
    assert_eq!(s.list_entries("").unwrap().len(), 2);
    assert_eq!(open_entries(&after, &derive_key("pw")).unwrap(), open_entries(&text, &derive_key("pw")).unwrap());
    let text = s.delete_entry(&"a".to_string(), &n).unwrap();
    assert_eq!(s.list_entries("").unwrap(), vec![entry("b", "two.com", "u2", "p2", "")]);
    assert_eq!(open_entries(&text, &derive_key("pw")).unwrap(), vec![entry("b", "two.com", "u2", "p2", "")]);
}

#[test]
fn filter_matches_link_or_user_case_sensitively() {
    let mut s = Session::new();
    assert!(s.unlock("pw", None));
    let n = nonce();
    s.save_entry(entry("1", "example.com", "bob", "x", ""), &n).unwrap();
    s.save_entry(entry("2", "mail.org", "examiner", "y", ""), &n).unwrap();
    s.save_entry(entry("3", "bank.net", "carol", "exam", "exam"), &n).unwrap();
    let ids = |f: &str| -> Vec<String> {
        s.list_entries(f).unwrap().into_iter().map(|e| e.id).collect()
    };
    assert_eq!(ids(""), vec!["1", "2", "3"]);
    assert_eq!(ids("exam"), vec!["1", "2"]);
    assert_eq!(ids("Exam"), Vec::<String>::new());
    assert_eq!(ids("carol"), vec!["3"]);
    assert_eq!(ids(".com"), vec!["1"]);
}

#[test]
fn scenario_unlock_save_lock_reunlock() {
    let mut s = Session::new();
    assert!(s.unlock("hunter2", None));
    assert_eq!(s.list_entries("").unwrap(), Vec::<Entry>::new());
    let saved = entry("1", "example.com", "bob", "x", "");
    let file = s.save_entry(saved.clone(), &nonce()).unwrap();
    s.lock();
    assert!(!s.unlock("wrongpass", Some(&file)));
    assert!(!s.is_unlocked());
    assert_eq!(s.list_entries(""), Err(VaultError::Locked));
    assert!(s.unlock("hunter2", Some(&file)));
    assert_eq!(s.list_entries("").unwrap(), vec![saved]);
}

#[test]
fn scenario_change_master_password() {
    let mut s = Session::new();
    assert!(s.unlock("hunter2", None));
    let file = s.save_entry(entry("1", "example.com", "bob", "x", ""), &nonce()).unwrap();

    assert_eq!(s.change_master_password("bad", "newpw", &nonce()), Ok(None));
    let mut other = Session::new();
    assert!(!other.unlock("newpw", Some(&file)));
    assert!(other.unlock("hunter2", Some(&file)));

    let rekeyed = s.change_master_password("hunter2", "newpw", &nonce()).unwrap().unwrap();
    let mut again = Session::new();
    assert!(!again.unlock("hunter2", Some(&rekeyed)));
    assert!(again.unlock("newpw", Some(&rekeyed)));
    assert_eq!(again.list_entries("").unwrap(), vec![entry("1", "example.com", "bob", "x", "")]);
    // The session keeps working under the new password.
    let later = s.save_entry(entry("2", "b.com", "eve", "z", ""), &nonce()).unwrap();
    assert!(again.unlock("newpw", Some(&later)));
    assert_eq!(again.list_entries("").unwrap().len(), 2);
    assert_eq!(s.change_master_password("hunter2", "x", &nonce()), Ok(None));
}

#[test]
fn failed_unlock_leaves_open_session_as_it_was() {
    let mut s = Session::new();
    assert!(s.unlock("pw", None));
    let file = s.save_entry(entry("1", "a", "b", "c", "d"), &nonce()).unwrap();
    assert!(!s.unlock("nope", Some(&file)));
    assert!(s.is_unlocked());
    assert_eq!(s.list_entries("").unwrap().len(), 1);
}

#[test]
fn envelope_too_short_for_a_tag_is_a_format_error() {
    let key = derive_key("pw");
    for len in [13usize, 20, 28] {
        let mut bytes = vec![0u8; len];
        bytes[0] = 1;
        let text = base64::engine::general_purpose::STANDARD.encode(&bytes);
        assert_eq!(open_entries(&text, &key), Err(VaultError::Format));
    }
}

#[test]
fn repeated_ids_in_a_file_are_a_format_error() {
    let key = derive_key("pw");
    let es = vec![entry("1", "a", "b", "c", "d"), entry("1", "e", "f", "g", "h")];
    let text = seal_entries(&es, &key, &nonce()).unwrap();
    assert_eq!(open_entries(&text, &key), Err(VaultError::Format));
    let mut s = Session::new();
    assert!(!s.unlock("pw", Some(&text)));
    assert!(!s.is_unlocked());
}

#[test]
fn sealed_text_is_base64() {
    let text = seal_entries(&sample(), &derive_key("pw"), &nonce()).unwrap();
    assert_eq!(text.len() % 4, 0);
    assert!(text.chars().all(|c| c.is_ascii_alphanumeric() || c == '+' || c == '/' || c == '='));
}

#[test]
fn try_unlock_reports_the_reason() {
    let text = seal_entries(&sample(), &derive_key("pw"), &nonce()).unwrap();
    let mut s = Session::new();
    assert_eq!(s.try_unlock("other", Some(&text)), Err(VaultError::Authentication));
    assert_eq!(s.try_unlock("pw", Some("AgID")), Err(VaultError::UnsupportedVersion));
    assert_eq!(s.try_unlock("pw", Some("%%%%")), Err(VaultError::Format));
    assert!(!s.is_unlocked());
    assert_eq!(s.try_unlock("pw", Some(&text)), Ok(()));
    assert_eq!(s.list_entries("").unwrap(), sample());
}
