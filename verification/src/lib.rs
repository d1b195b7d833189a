//! Hybrid file encryption for recipients identified by their published
//! public keys: an ephemeral session key is wrapped asymmetrically for each
//! recipient, and the payload is sealed as a stream of authenticated chunks
//! behind a length-prefixed binary header.
//!
//! The components, leaves first: [`asymm`] wraps and unwraps the session
//! key under RSA keys; [`symm`] seals and opens the chunked stream;
//! [`header`] frames the envelope collection and chunk size, and encodes
//! the session key record; [`github`] models the recipient key records a
//! directory service publishes; [`run`] sequences them into the end-to-end
//! encrypt and decrypt flows, on plain byte values. Reading, writing,
//! prompting and the directory lookup itself belong to the caller.

pub mod asymm;
pub mod cli;
pub mod errors;
pub mod github;
pub mod header;
pub mod run;
pub mod symm;
