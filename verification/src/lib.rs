//! A single-user local secrets vault: a password-protected store of named
//! key/value credentials grouped into folders, persisted as one encrypted
//! container.
//!
//! The crate is organised in strict layers:
//! - [`crypto`]: master-password key derivation (Argon2id) and authenticated
//!   encryption of byte payloads (AES-256-GCM, random nonce, base64 output).
//! - [`vault`]: the in-memory vault data model and its mutations.
//! - [`codec`]: the serialization of a vault into the byte payload that gets
//!   encrypted, with a proved round trip.
//! - [`storage`]: the container format and the create/unlock/save
//!   transactions over a container's content. Reading and writing the
//!   container file itself is left to the embedding application.

pub mod codec;
pub mod crypto;
pub mod storage;
pub mod vault;
pub mod views;
