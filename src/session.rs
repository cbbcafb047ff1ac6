//! The lock/unlock session that owns the records and the key material.
//!
//! The session never touches the file system. `unlock` is handed the file
//! text (or `None` when there is no file); every operation that changes what
//! is persisted hands back the new file text for the host to write.

use crate::codec::{entries_bytes, fields_fit};
use crate::crypto::{derive_key, digest, key_of, verifier_of, KEY_LEN, MAX_PLAINTEXT, NONCE_LEN};
use crate::entry::{
    entries_view, ids_unique, matching, remove_id, select, upsert, upserted, without_id, Entry,
    EntryView,
};
use crate::vault::{load_result, open_entries, sealable, seal_entries, vault_text, VaultError};
use vstd::prelude::*;

verus! {

/// What a session holds: whether it is unlocked, the master password it was
/// unlocked with (ghost: never stored), its verifier, the file key, and the
/// records. Empty values stand for an unset password, verifier and key.
pub ghost struct SessionView {
    pub unlocked: bool,
    pub password: Seq<char>,
    pub verifier: Seq<u8>,
    pub key: Seq<u8>,
    pub entries: Seq<EntryView>,
}

/// The state of a locked session.
pub open spec fn locked_view() -> SessionView {
    SessionView {
        unlocked: false,
        password: Seq::empty(),
        verifier: Seq::empty(),
        key: Seq::empty(),
        entries: Seq::empty(),
    }
}

/// `lock` ends in the locked state whatever it starts from, so locking twice
/// in a row is the same as locking once; that state is valid and holds no
/// records, no verifier and no key.
pub proof fn lemma_lock_idempotent()
    ensures
        valid(locked_view()),
        !locked_view().unlocked,
        locked_view().entries.len() == 0,
        locked_view().verifier.len() == 0,
        locked_view().key.len() == 0,
{
}

/// Unlocking over a missing or an empty file succeeds with any password and
/// opens an empty vault.
pub proof fn lemma_fresh_unlock(file: Option<Seq<char>>, password: Seq<char>)
    requires
        file is None || file->Some_0.len() == 0,
    ensures
        unlocks(file, password),
        file_contents(file, password) == Ok::<Seq<EntryView>, VaultError>(Seq::empty()),
{
}

/// A locked session holds nothing; an unlocked one holds the verifier and the
/// key of one password, and records with distinct ids whose fields' lengths
/// fit the codec's length headers.
pub open spec fn valid(s: SessionView) -> bool {
    if s.unlocked {
        &&& s.verifier == verifier_of(s.password)
        &&& s.key == key_of(s.password)
        &&& s.verifier.len() == KEY_LEN
        &&& s.key.len() == KEY_LEN
        &&& ids_unique(s.entries)
        &&& fields_fit(s.entries)
    } else {
        s == locked_view()
    }
}

/// The unlocked state for a password and the records read from the file.
pub open spec fn unlocked_view(password: Seq<char>, es: Seq<EntryView>) -> SessionView {
    SessionView {
        unlocked: true,
        password,
        verifier: verifier_of(password),
        key: key_of(password),
        entries: es,
    }
}

/// What unlocking reads from the file: nothing when there is no file.
pub open spec fn file_contents(file: Option<Seq<char>>, password: Seq<char>) -> Result<
    Seq<EntryView>,
    VaultError,
> {
    match file {
        None => Ok(Seq::empty()),
        Some(text) => load_result(text, key_of(password)),
    }
}

/// The text of an optional file.
pub open spec fn file_text(file: Option<&str>) -> Option<Seq<char>> {
    match file {
        Some(t) => Some(t@),
        None => None,
    }
}

/// Whether unlocking with this file and password succeeds.
pub open spec fn unlocks(file: Option<Seq<char>>, password: Seq<char>) -> bool {
    file_contents(file, password) is Ok
}

/// The single process-wide session.
pub struct Session {
    unlocked: bool,
    password: Ghost<Seq<char>>,
    verifier: Vec<u8>,
    key: Vec<u8>,
    entries: Vec<Entry>,
}

impl View for Session {
    type V = SessionView;

    closed spec fn view(&self) -> SessionView {
        SessionView {
            unlocked: self.unlocked,
            password: self.password@,
            verifier: self.verifier@,
            key: self.key@,
            entries: entries_view(self.entries@),
        }
    }
}

fn bytes_equal(a: &Vec<u8>, b: &Vec<u8>) -> (r: bool)
    ensures
        r == (a@ == b@),
{
    if a.len() != b.len() {
        return false;
    }
    let mut i: usize = 0;
    while i < a.len()
        invariant
            a@.len() == b@.len(),
            i <= a@.len(),
            forall|k: int| 0 <= k < i ==> a@[k] == b@[k],
        decreases a@.len() - i,
    {
        if a[i] != b[i] {
            return false;
        }
        i = i + 1;
    }
    assert(a@ =~= b@);
    true
}

fn copy_entries(es: &Vec<Entry>) -> (r: Vec<Entry>)
    ensures
        entries_view(r@) == entries_view(es@),
{
    let mut out: Vec<Entry> = Vec::new();
    let mut i: usize = 0;
    while i < es.len()
        invariant
            i <= es@.len(),
            entries_view(out@) == entries_view(es@.take(i as int)),
        decreases es@.len() - i,
    {
        let ghost prev = out@;
        out.push(es[i].copy());
        assert(entries_view(out@) =~= entries_view(prev).push(es@[i as int]@));
        assert(entries_view(es@.take(i + 1)) =~= entries_view(es@.take(i as int)).push(es@[i as int]@));
        i = i + 1;
    }
    assert(es@.take(i as int) =~= es@);
    out
}

impl Session {
    /// A new, locked session.
    pub fn new() -> (r: Session)
        ensures
            r@ == locked_view(),
    {
        let r = Session {
            unlocked: false,
            password: Ghost(Seq::empty()),
            verifier: Vec::new(),
            key: Vec::new(),
            entries: Vec::new(),
        };
        assert(entries_view(r.entries@) =~= Seq::<EntryView>::empty());
        assert(r@ == locked_view());
        r
    }

    /// Whether the session is unlocked.
    pub fn is_unlocked(&self) -> (r: bool)
        ensures
            r == self@.unlocked,
    {
        self.unlocked
    }

    /// Unlocks with `password`, given the vault file's text, or `None` when
    /// there is no file. A missing or empty file opens an empty vault. A file
    /// that does not open under the password leaves the session as it was and
    /// gives the reason: `Authentication` for a wrong password or a tampered
    /// file, `Format` or `UnsupportedVersion` for a file that cannot be read.
    pub fn try_unlock(&mut self, password: &str, file: Option<&str>) -> (r: Result<(), VaultError>)
        requires
            valid(old(self)@),
        ensures
            valid(final(self)@),
            r is Ok <==> unlocks(file_text(file), password@),
            r is Ok ==> final(self)@ == unlocked_view(
                password@,
                file_contents(file_text(file), password@)->Ok_0,
            ),
            r is Err ==> final(self)@ == old(self)@ && file_contents(file_text(file), password@)
                == Err::<Seq<EntryView>, VaultError>(r->Err_0),
    {
        let key = derive_key(password);
        let loaded = match file {
            None => Ok(Vec::new()),
            Some(text) => open_entries(text, &key),
        };
        let entries = match loaded {
            Ok(v) => v,
            Err(e) => return Err(e),
        };
        proof {
            if file is None {
                assert(entries_view(entries@) =~= Seq::<EntryView>::empty());
            }
        }
        self.verifier = digest(password);
        self.key = key;
        self.entries = entries;
        self.password = Ghost(password@);
        self.unlocked = true;
        Ok(())
    }

    /// Unlocks as [`Session::try_unlock`] does; a file that does not open
    /// under the password is a normal outcome, `false`, not an error.
    pub fn unlock(&mut self, password: &str, file: Option<&str>) -> (r: bool)
        requires
            valid(old(self)@),
        ensures
            valid(final(self)@),
            r == unlocks(file_text(file), password@),
            r ==> final(self)@ == unlocked_view(
                password@,
                file_contents(file_text(file), password@)->Ok_0,
            ),
            !r ==> final(self)@ == old(self)@,
    {
        self.try_unlock(password, file).is_ok()
    }

    /// Forgets the records, the verifier and the key, and locks. Never fails.
    pub fn lock(&mut self)
        ensures
            final(self)@ == locked_view(),
    {
        self.unlocked = false;
        self.password = Ghost(Seq::empty());
        self.verifier = Vec::new();
        self.key = Vec::new();
        self.entries = Vec::new();
        assert(entries_view(self.entries@) =~= Seq::<EntryView>::empty());
        assert(self@ == locked_view());
    }

    /// The records whose `link` or `user` contains `filter`, in order; all of
    /// them for an empty filter.
    pub fn list_entries(&self, filter: &str) -> (r: Result<Vec<Entry>, VaultError>)
        requires
            valid(self@),
        ensures
            !self@.unlocked ==> r == Err::<Vec<Entry>, VaultError>(VaultError::Locked),
            self@.unlocked ==> r is Ok && entries_view(r->Ok_0@) == matching(self@.entries, filter@),
    {
        if !self.unlocked {
            return Err(VaultError::Locked);
        }
        Ok(select(&self.entries, filter))
    }

    /// Saves a record (replacing the one with the same id in place, or
    /// appending) and gives the new file text, encrypted with `nonce`. When
    /// the collection would be too large to encrypt nothing changes.
    pub fn save_entry(&mut self, entry: Entry, nonce: &Vec<u8>) -> (r: Result<String, VaultError>)
        requires
            valid(old(self)@),
            nonce@.len() == NONCE_LEN,
        ensures
            valid(final(self)@),
            !old(self)@.unlocked ==> r == Err::<String, VaultError>(VaultError::Locked) && final(self)@
                == old(self)@,
            old(self)@.unlocked ==> {
                let es = upserted(old(self)@.entries, entry@);
                if entries_bytes(es).len() <= MAX_PLAINTEXT {
                    &&& r is Ok
                    &&& r->Ok_0@ == vault_text(es, old(self)@.key, nonce@)
                    &&& sealable(es, old(self)@.key, nonce@)
                    &&& final(self)@ == SessionView { entries: es, ..old(self)@ }
                } else {
                    r == Err::<String, VaultError>(VaultError::TooLarge) && final(self)@ == old(self)@
                }
            },
    {
        if !self.unlocked {
            return Err(VaultError::Locked);
        }
        let mut next = copy_entries(&self.entries);
        upsert(&mut next, entry);
        match seal_entries(&next, &self.key, nonce) {
            Ok(text) => {
                self.entries = next;
                Ok(text)
            },
            Err(e) => Err(e),
        }
    }

    /// Deletes the record with this id, if there is one, and gives the new
    /// file text, encrypted with `nonce`.
    pub fn delete_entry(&mut self, id: &String, nonce: &Vec<u8>) -> (r: Result<String, VaultError>)
        requires
            valid(old(self)@),
            nonce@.len() == NONCE_LEN,
        ensures
            valid(final(self)@),
            !old(self)@.unlocked ==> r == Err::<String, VaultError>(VaultError::Locked) && final(self)@
                == old(self)@,
            old(self)@.unlocked ==> {
                let es = without_id(old(self)@.entries, id@);
                if entries_bytes(es).len() <= MAX_PLAINTEXT {
                    &&& r is Ok
                    &&& r->Ok_0@ == vault_text(es, old(self)@.key, nonce@)
                    &&& sealable(es, old(self)@.key, nonce@)
                    &&& final(self)@ == SessionView { entries: es, ..old(self)@ }
                } else {
                    r == Err::<String, VaultError>(VaultError::TooLarge) && final(self)@ == old(self)@
                }
            },
    {
        if !self.unlocked {
            return Err(VaultError::Locked);
        }
        let mut next = copy_entries(&self.entries);
        remove_id(&mut next, id);
        match seal_entries(&next, &self.key, nonce) {
            Ok(text) => {
                self.entries = next;
                Ok(text)
            },
            Err(e) => Err(e),
        }
    }

    /// Replaces the master password. With a wrong `old_password` nothing
    /// changes and the result is `Ok(None)`; with the right one the records
    /// are re-encrypted under the new password's key, with `nonce`, and the
    /// new file text is returned.
    pub fn change_master_password(
        &mut self,
        old_password: &str,
        new_password: &str,
        nonce: &Vec<u8>,
    ) -> (r: Result<Option<String>, VaultError>)
        requires
            valid(old(self)@),
            nonce@.len() == NONCE_LEN,
        ensures
            valid(final(self)@),
            !old(self)@.unlocked ==> r == Err::<Option<String>, VaultError>(VaultError::Locked)
                && final(self)@ == old(self)@,
            old(self)@.unlocked && verifier_of(old_password@) != old(self)@.verifier ==> r == Ok::<
                Option<String>,
                VaultError,
            >(None) && final(self)@ == old(self)@,
            old(self)@.unlocked && verifier_of(old_password@) == old(self)@.verifier ==> {
                let es = old(self)@.entries;
                if entries_bytes(es).len() <= MAX_PLAINTEXT {
                    &&& r is Ok && r->Ok_0 is Some
                    &&& r->Ok_0->Some_0@ == vault_text(es, key_of(new_password@), nonce@)
                    &&& sealable(es, key_of(new_password@), nonce@)
                    &&& final(self)@ == unlocked_view(new_password@, es)
                } else {
                    r == Err::<Option<String>, VaultError>(VaultError::TooLarge) && final(self)@
                        == old(self)@
                }
            },
    {
        if !self.unlocked {
            return Err(VaultError::Locked);
        }
        let candidate = digest(old_password);
        if !bytes_equal(&candidate, &self.verifier) {
            return Ok(None);
        }
        let key = derive_key(new_password);
        match seal_entries(&self.entries, &key, nonce) {
            Ok(text) => {
                self.verifier = digest(new_password);
                self.key = key;
                self.password = Ghost(new_password@);
                Ok(Some(text))
            },
            Err(e) => Err(e),
        }
    }
}

} // verus!
