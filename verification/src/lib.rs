//! A password-gated, symmetrically encrypted key/value store.
//!
//! The store keeps a document of string keys and string values. A password
//! and a persisted random salt are turned into a 32-byte key; the document
//! is serialized to a canonical text form, sealed with an authenticated
//! cipher under a fresh nonce, and the result is text-encoded into a single
//! container string. Opening a container verifies the authentication tag and
//! parses the plaintext back into a document.

pub mod codec;
pub mod crypto;
pub mod document;
pub mod kdf;
pub mod store;

pub use document::Document;
pub use kdf::{derive_key, DerivationError};
pub use store::{
    generate_salt, initialize_or_load, open_with_key, save, seal_with_key, unlock, PersistError,
    UnlockError,
};
