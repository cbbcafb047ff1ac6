//! An encrypted, password-protected store of credential records.
//!
//! The library holds the whole engine: the records and their store, the
//! textual codec for a collection of records, the envelope that carries the
//! encrypted codec output in the vault file, and the lock/unlock session that
//! gates every operation. Reading and writing the file is left to the host:
//! operations that change what is persisted hand back the new file text.

pub mod codec;
pub mod crypto;
pub mod entry;
pub mod session;
pub mod vault;
