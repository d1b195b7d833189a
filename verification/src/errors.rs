use vstd::prelude::*;

verus! {

/// The failure kinds of the library.
///
/// Every fallible operation of this crate reports one of these, so callers
/// can tell an unsupported key apart from a malformed input, a failed
/// authentication, or an exhausted candidate set.
#[derive(Debug)]
pub enum Error {
    /// A key's algorithm is not RSA, the only supported key type.
    KeyUnsupported,
    /// A private key is passphrase-protected and no passphrase was supplied.
    KeyEncrypted,
    /// Malformed key or header bytes.
    DecodeFailure,
    /// A chunk's tag did not verify.
    AuthenticationFailure,
    /// No public key of the recipient could be used for wrapping.
    NoUsableRecipientKey,
    /// No envelope could be unwrapped, or the unwrapped data holds no key.
    NoUsableKey,
    /// The asymmetric wrap produced no longer output than its input.
    WrapFailure,
    /// An encoded header would not fit behind its 32-bit length prefix.
    HeaderTooLarge,
    /// An underlying cryptographic operation failed.
    CryptoFailure(openssl::error::ErrorStack),
    /// The symmetric cipher rejected a chunk it was asked to seal.
    CipherFailure,
}

#[verifier::external_type_specification]
#[verifier::external_body]
pub struct ExErrorStack(openssl::error::ErrorStack);

} // verus!
