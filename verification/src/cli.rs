use vstd::prelude::*;

verus! {

/// Options of the decrypt operation.
pub struct Decrypt {
    /// Path of the private key file; a conventional per-user SSH key path
    /// is used when this is absent.
    pub key: Option<String>,
    /// Input file path; standard input when absent.
    pub input: Option<String>,
    /// Output file path; standard output when absent.
    pub output: Option<String>,
    /// Header-less single-recipient mode.
    pub small: bool,
}

/// Options of the encrypt operation.
pub struct Encrypt {
    /// Base address of the key directory service.
    pub host: String,
    /// Recipient identifier looked up in the directory service.
    pub recipient: String,
    /// Personal access token for the directory service.
    pub token: Option<String>,
    /// Input file path; standard input when absent.
    pub input: Option<String>,
    /// Output file path; standard output when absent.
    pub output: Option<String>,
    /// Header-less single-recipient mode.
    pub small: bool,
}

/// The two operations of the command-line surface.
pub enum Opt {
    Decrypt(Decrypt),
    Encrypt(Encrypt),
}

} // verus!
