//! Recipient public keys as the directory service publishes them: a key
//! identifier and the key's textual wire representation, convertible to the
//! typed key the envelope consumes. The directory lookup itself — transport,
//! authentication, prompting — is the caller's collaborator, not part of
//! this library; only its decision rule for the one-time-password challenge
//! lives here.

use vstd::prelude::*;
use vstd::string::StringSliceAdditionalSpecFns;

use crate::asymm::{KeyData, PublicKey};
use crate::errors::Error;

verus! {

/// One public key record of a recipient, as published by the directory
/// service.
pub struct GithubPublicKey {
    /// The record's identifier in the directory.
    pub id: u64,
    /// The key's textual wire representation.
    pub key: String,
}

/// The outcome of parsing the textual wire representation of a public
/// key, for ASCII text: nothing when the text does not parse; otherwise
/// the parsed key — its RSA exponent and modulus bytes, or nothing when
/// the key is of another algorithm. The parse is deterministic in the
/// text alone.
pub uninterp spec fn ssh_pubkey_of(text: Seq<char>) -> Option<Option<(Seq<u8>, Seq<u8>)>>;

/// Relies on `openssh_keys::PublicKey::parse` and the `Data::Rsa` variant:
/// the deterministic parse whose outcome is `ssh_pubkey_of` — every
/// algorithm but RSA becomes the unsupported tag, and unparseable text a
/// decode failure. The text must be ASCII: the parser's fallback path
/// indexes the text by character position, which panics on a multi-byte
/// character boundary, so the `requires` keeps such text out and the
/// caller rejects it first.
#[verifier::external_body]
fn parse_public_key(key: &str) -> (r: Result<PublicKey, Error>)
    requires
        vstd::string::is_ascii(key),
    ensures
        (match ssh_pubkey_of(key@) {
            None => r matches Err(e) && e is DecodeFailure,
            Some(None) => r matches Ok(pk) && pk.data is Unsupported,
            Some(Some(c)) => r matches Ok(pk) && (pk.data matches KeyData::Rsa {
                exponent,
                modulus,
            } && exponent@ == c.0 && modulus@ == c.1),
        }),
{
    match openssh_keys::PublicKey::parse(key) {
        Ok(k) => match k.data {
            openssh_keys::Data::Rsa { exponent, modulus } => Ok(
                PublicKey { data: KeyData::Rsa { exponent, modulus } },
            ),
            _ => Ok(PublicKey { data: KeyData::Unsupported }),
        },
        Err(_) => Err(Error::DecodeFailure),
    }
}

impl GithubPublicKey {
    /// The parse outcome this record's text yields: the named outcome for
    /// ASCII text, and a decode failure for anything else — key records
    /// are ASCII by format.
    pub open spec fn parse_outcome(&self) -> Option<Option<(Seq<u8>, Seq<u8>)>> {
        if vstd::utf8::is_ascii_chars(self.key@) {
            ssh_pubkey_of(self.key@)
        } else {
            None
        }
    }

    /// Converts the record's textual key into the typed key the envelope
    /// consumes, exactly as the record's parse outcome describes: an
    /// unparseable (or non-ASCII) record fails, and a parsed record
    /// carries its algorithm tag and raw parameters.
    pub fn to_public_key(&self) -> (r: Result<PublicKey, Error>)
        ensures
            (match self.parse_outcome() {
                None => r matches Err(e) && e is DecodeFailure,
                Some(None) => r matches Ok(pk) && pk.data is Unsupported,
                Some(Some(c)) => r matches Ok(pk) && (pk.data matches KeyData::Rsa {
                    exponent,
                    modulus,
                } && exponent@ == c.0 && modulus@ == c.1),
            }),
    {
        if !self.key.as_str().is_ascii() {
            return Err(Error::DecodeFailure);
        }
        parse_public_key(self.key.as_str())
    }
}

/// The RSA parameters a record offers, when its text parses to a
/// supported key: the exponent and modulus bytes.
pub open spec fn record_rsa(rec: &GithubPublicKey) -> Option<(Seq<u8>, Seq<u8>)> {
    match rec.parse_outcome() {
        Some(Some(c)) => Some(c),
        _ => None,
    }
}

/// Whether a record can wrap a plaintext of `n` bytes: it parses to an
/// RSA key whose PKCS#1 capacity — the modulus length less the 11 padding
/// bytes — covers the plaintext.
pub open spec fn record_wrappable(rec: &GithubPublicKey, n: nat) -> bool {
    match record_rsa(rec) {
        Some(c) => n + 11 <= crate::asymm::stripped_len(c.1),
        None => false,
    }
}

/// Whether `h` starts with `p`.
pub open spec fn starts_with_seq(h: Seq<u8>, p: Seq<u8>) -> bool {
    h.len() >= p.len() && h.subrange(0, p.len() as int) == p
}

/// Whether the bytes of `h` start with the bytes of `prefix`.
fn starts_with_bytes(h: &Vec<u8>, prefix: &[u8]) -> (r: bool)
    ensures
        r == starts_with_seq(h@, prefix@),
{
    let pl = prefix.len();
    if h.len() < pl {
        return false;
    }
    let mut i: usize = 0;
    let mut matched = true;
    while i < pl
        invariant
            pl <= h@.len(),
            pl == prefix@.len(),
            i <= pl,
            matched ==> forall|y: int| 0 <= y < i ==> h@[y] == prefix@[y],
            !matched ==> h@.subrange(0, pl as int) != prefix@,
        decreases pl - i,
    {
        if h[i] != prefix[i] {
            proof {
                assert(h@.subrange(0, pl as int)[i as int] == h@[i as int]);
            }
            matched = false;
            i = pl;
        } else {
            i = i + 1;
        }
    }
    proof {
        if matched {
            assert(h@.subrange(0, pl as int) =~= prefix@);
        }
    }
    matched
}

/// Whether a directory response demands a one-time password: a client
/// error carrying a challenge header whose value starts with `required`.
pub fn is_otp_required(status: u16, otp_header: Option<&Vec<u8>>) -> (r: bool)
    ensures
        r == (400 <= status < 500 && (otp_header matches Some(h) && starts_with_seq(
            h@,
            "required".spec_bytes(),
        ))),
{
    if !(400 <= status && status < 500) {
        return false;
    }
    match otp_header {
        Some(h) => starts_with_bytes(h, "required".as_bytes()),
        None => false,
    }
}

} // verus!
