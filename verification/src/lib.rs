//! A local, single-user encrypted credential store: a flat collection of
//! named secrets kept in one file, sealed with AES-256-GCM under a key that
//! Argon2 derives from a master password.  Every save rewrites the whole
//! store under a fresh salt and a fresh nonce; the collection keeps its
//! names unique and is sorted by name after every load and merge.

use vstd::prelude::*;

pub mod codec;
pub mod crypto;
pub mod model;
pub mod password;
pub mod storage;

verus! {

/// Errors surfaced by the encrypted store and its entry collection.
#[derive(Debug, PartialEq, Eq)]
pub enum StoreError {
    StoreNotFound,
    TruncatedFile,
    MalformedStore,
    AuthenticationFailure,
    DuplicateName,
    InternalDuplicate(String),
    CrossDuplicate(String),
    NotFound,
    IoFailure,
}

} // verus!
