//! A client-side session authentication library.
//!
//! The heart of the crate is a typestate session core: a user-account record
//! statically tagged as either unauthorized or authorized, so that the
//! operations available on it are fixed by its tag at compile time. Around it
//! stand a deterministic credential-hashing subsystem and a persistence codec
//! that lets a restarted client resume a session from a key-value store.

pub mod date;
pub mod hashing;
pub mod persistence;
pub mod user_manager;
