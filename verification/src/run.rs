//! The end-to-end encrypt and decrypt flows, on plain values: the caller
//! supplies the recipient's published keys, the key blob and the payload
//! bytes, and receives the bytes to write. Reading, writing and the
//! directory lookup stay with the caller.

use vstd::prelude::*;

use crate::asymm::{
    components_fit, decrypt_data, decrypt_key, key_components_of, opt_bytes, pem_exact,
    refused_encrypted, unwrap_search, Encryptor,
};
use crate::asymm::stripped_len;
use crate::errors::Error;
use crate::github::{record_rsa, record_wrappable, GithubPublicKey};
use crate::header::{
    encode_session, encryption_decode_spec, frame_decode_spec, frame_spec, Aes256Siv, Encryption,
    Header, Key,
};
use crate::symm::{decrypt_stream, encrypt_stream, seal_stream_spec, MESSAGE_SIZE};

verus! {

/// Encrypts the payload directly under one recipient key, with no header
/// and no session key: the small mode.
///
/// Every offered key is attempted and the last usable one wins — the
/// envelope fills exactly some offered RSA record's modulus. The
/// operation fails only when no key could be used, with the distinct
/// no-usable-recipient-key error, and is owed that failure whenever no
/// record can wrap the payload at all.
pub fn run_encrypt_no_header(keys: &Vec<GithubPublicKey>, data: &Vec<u8>) -> (r: Result<
    Vec<u8>,
    Error,
>)
    requires
        data@.len() <= 0x7FFF_FFFF,
    ensures
        r matches Ok(c) ==> c@.len() > data@.len() && keys@.len() > 0,
        r matches Ok(c) ==> exists|i: int|
            0 <= i < keys@.len() && ((#[trigger] record_rsa(&keys@[i])) matches Some(rc)
                && c@.len() == stripped_len(rc.1)),
        r matches Err(e) ==> e is NoUsableRecipientKey,
        keys@.len() == 0 ==> (r matches Err(e) && e is NoUsableRecipientKey),
        (forall|j: int| 0 <= j < keys@.len() ==> !record_wrappable(&keys@[j], data@.len())) ==> (
        r matches Err(e) && e is NoUsableRecipientKey),
{
    let mut best: Option<Vec<u8>> = None;
    let ghost mut best_idx: int = 0;
    let mut i: usize = 0;
    while i < keys.len()
        invariant
            data@.len() <= 0x7FFF_FFFF,
            i <= keys@.len(),
            best matches Some(c) ==> c@.len() > data@.len() && keys@.len() > 0,
            best matches Some(c) ==> 0 <= best_idx < keys@.len() && (match record_rsa(
                &keys@[best_idx],
            ) {
                Some(rc) => c@.len() == stripped_len(rc.1),
                None => false,
            }),
            (forall|j: int| 0 <= j < keys@.len() ==> !record_wrappable(&keys@[j], data@.len()))
                ==> best is None,
        decreases keys@.len() - i,
    {
        match keys[i].to_public_key() {
            Ok(pk) => match pk.encrypt(data) {
                Ok(c) => {
                    proof {
                        best_idx = i as int;
                        assert(record_wrappable(&keys@[i as int], data@.len()));
                    }
                    best = Some(c);
                },
                Err(_) => {},
            },
            Err(_) => {},
        }
        i = i + 1;
    }
    match best {
        Some(c) => Ok(c),
        None => Err(Error::NoUsableRecipientKey),
    }
}

/// What a successful encrypt run produces: a framed header carrying the
/// envelope collection, then the sealed stream of the input under the
/// fresh session key.
pub open spec fn encrypted_shape(
    c: Seq<u8>,
    input: Seq<u8>,
    envs: Seq<Seq<u8>>,
    kk: Seq<u8>,
    ki: Seq<u8>,
) -> bool {
    &&& 0 < envs.len()
    &&& kk.len() == 64
    &&& ki.len() == 8
    &&& c == frame_spec(MESSAGE_SIZE as u32, envs) + seal_stream_spec(
        kk,
        ki,
        0,
        MESSAGE_SIZE as nat,
        input,
    )
}

/// What a successful decrypt run proves of its input: the input carries a
/// well-formed framed header, and what follows the frame is exactly the
/// sealed stream of the returned plaintext under some session key, chunked
/// by the header's chunk size.
pub open spec fn decrypted_shape(
    input: Seq<u8>,
    p: Seq<u8>,
    cs: u32,
    envs: Seq<Seq<u8>>,
    n: nat,
    kk: Seq<u8>,
    ki: Seq<u8>,
) -> bool {
    &&& frame_decode_spec(input) == Some(((cs, envs), n))
    &&& input.skip(n as int) == seal_stream_spec(kk, ki, 0, cs as nat, p)
    &&& kk.len() == 64
    &&& ki.len() == 8
}

/// The encoded session record's length: the 8-byte initialization value
/// and the 64-byte cipher key, each behind a tag and a length byte,
/// behind the record's own tag and length byte.
pub open spec fn session_record_len() -> nat {
    78
}

/// How an envelope collection arises from the offered key records: `m`
/// maps each envelope, in order, to a distinct record in record order
/// whose text parses to an RSA key, and the envelope fills exactly that
/// key's modulus — the wrap length.
pub open spec fn envelope_map(m: Seq<int>, envs: Seq<Seq<u8>>, keys: Seq<GithubPublicKey>) -> bool {
    &&& m.len() == envs.len()
    &&& (forall|j: int| 0 <= j < m.len() ==> 0 <= #[trigger] m[j] < keys.len())
    &&& (forall|j: int| 0 < j < m.len() ==> m[j - 1] < #[trigger] m[j])
    &&& (forall|j: int|
        0 <= j < m.len() ==> (match record_rsa(&keys[#[trigger] m[j]]) {
            Some(c) => envs[j].len() == stripped_len(c.1),
            None => false,
        }))
}

/// A framed header carrying a non-empty envelope collection within the
/// wire format's bounds: what `prepare_encrypt` writes.
pub open spec fn prepared_frame(f: Seq<u8>, envs: Seq<Seq<u8>>) -> bool {
    &&& 0 < envs.len()
    &&& f == frame_spec(MESSAGE_SIZE as u32, envs)
    &&& (forall|j: int| 0 <= j < envs.len() ==> #[trigger] envs[j].len() <= 0xFFFF_FFFF)
}

/// Prepares a streamed encryption: generates a fresh session key, wraps it
/// best-effort for every usable key the recipient offers, and returns the
/// session key beside the framed header, so the caller can write the
/// header and then seal the payload chunk by chunk without holding it in
/// memory.
///
/// Each envelope arises from a distinct offered RSA record, in record
/// order, and fills exactly that record's modulus. The operation fails
/// with the distinct no-usable-recipient-key error exactly when the
/// envelope set came out empty, and is owed a failure whenever no record
/// can wrap the session record at all.
#[verifier::rlimit(80)]
pub fn prepare_encrypt(keys: &Vec<GithubPublicKey>) -> (r: Result<(Aes256Siv, Vec<u8>), Error>)
    ensures
        keys@.len() == 0 ==> (r matches Err(e) && (e is NoUsableRecipientKey
            || e is CryptoFailure)),
        (forall|j: int| 0 <= j < keys@.len() ==> !record_wrappable(&keys@[j], session_record_len()))
            ==> (r matches Err(e) && (e is NoUsableRecipientKey || e is CryptoFailure)),
        r matches Ok(p) ==> p.0.wf() && (exists|envs: Seq<Seq<u8>>, m: Seq<int>|
            #[trigger] prepared_frame(p.1@, envs) && #[trigger] envelope_map(m, envs, keys@)
                && envs.len() <= keys@.len()),
        r matches Err(e) ==> (e is NoUsableRecipientKey || e is CryptoFailure
            || e is HeaderTooLarge),
{
    let key = match Aes256Siv::new() {
        Ok(k) => k,
        Err(e) => {
            return Err(e);
        },
    };
    let key_encoded = encode_session(&key);
    proof {
        assert(crate::header::varint_spec(8).len() == 1);
        assert(crate::header::varint_spec(64).len() == 1);
        assert(crate::header::varint_spec(76).len() == 1);
        assert(key_encoded@.len() == session_record_len());
    }
    let mut encrypted_keys: Vec<Vec<u8>> = Vec::new();
    let ghost mut m: Seq<int> = Seq::<int>::empty();
    let mut i: usize = 0;
    while i < keys.len()
        invariant
            key_encoded@.len() == session_record_len(),
            i <= keys@.len(),
            encrypted_keys@.len() <= i,
            m.len() == encrypted_keys@.len(),
            forall|j: int| 0 <= j < m.len() ==> 0 <= #[trigger] m[j] < i,
            forall|j: int| 0 < j < m.len() ==> m[j - 1] < #[trigger] m[j],
            forall|j: int|
                0 <= j < m.len() ==> (match record_rsa(&keys@[#[trigger] m[j]]) {
                    Some(c) => encrypted_keys@[j]@.len() == stripped_len(c.1),
                    None => false,
                }),
            forall|j: int|
                0 <= j < encrypted_keys@.len() ==> #[trigger] encrypted_keys@[j]@.len()
                    <= 0xFFFF_FFFF,
            (forall|j: int|
                0 <= j < keys@.len() ==> !record_wrappable(&keys@[j], session_record_len()))
                ==> encrypted_keys@.len() == 0,
        decreases keys@.len() - i,
    {
        match keys[i].to_public_key() {
            Ok(pk) => match pk.encrypt(&key_encoded) {
                Ok(c) => {
                    proof {
                        assert(record_wrappable(&keys@[i as int], session_record_len()));
                        m = m.push(i as int);
                    }
                    encrypted_keys.push(c);
                },
                Err(_) => {},
            },
            Err(_) => {},
        }
        i = i + 1;
    }
    if encrypted_keys.len() == 0 {
        return Err(Error::NoUsableRecipientKey);
    }
    let header = Header { encrypted_keys, chunk_size: MESSAGE_SIZE as u32 };
    let ghost envs = header.encrypted_keys.deep_view();
    let framed = match header.encode_length_delimited() {
        Ok(f) => f,
        Err(e) => {
            return Err(e);
        },
    };
    proof {
        assert(envs.len() == header.encrypted_keys@.len());
        assert forall|j: int| 0 <= j < envs.len() implies #[trigger] envs[j].len()
            <= 0xFFFF_FFFF by {
            assert(envs[j] == header.encrypted_keys@[j]@);
        }
        assert(prepared_frame(framed@, envs));
        assert forall|j: int| 0 <= j < m.len() implies (match record_rsa(
            &keys@[#[trigger] m[j]],
        ) {
            Some(c) => envs[j].len() == stripped_len(c.1),
            None => false,
        }) by {
            assert(envs[j] == header.encrypted_keys@[j]@);
        }
        assert(envelope_map(m, envs, keys@));
    }
    let ghost framedv = framed@;
    let ghost ivv = key.iv@;
    let ghost kkv = key.key@;
    let r: Result<(Aes256Siv, Vec<u8>), Error> = Ok((key, framed));
    proof {
        assert(r matches Ok(p) ==> p.1@ == framedv && p.0.iv@ == ivv && p.0.key@ == kkv);
        assert(r matches Ok(p) ==> p.0.wf() && (exists|envs2: Seq<Seq<u8>>, m2: Seq<int>|
            #[trigger] prepared_frame(p.1@, envs2) && #[trigger] envelope_map(m2, envs2, keys@)
                && envs2.len() <= keys@.len()));
    }
    r
}

/// Encrypts the payload for every usable key the recipient offers: a fresh
/// session key is wrapped under each, the framed header is written, and
/// the payload is sealed as a chunked stream under the session key.
#[verifier::rlimit(80)]
#[verifier::spinoff_prover]
pub fn run_encrypt(keys: &Vec<GithubPublicKey>, input: &Vec<u8>, small: bool) -> (r: Result<
    Vec<u8>,
    Error,
>)
    requires
        small ==> input@.len() <= 0x7FFF_FFFF,
        input@.len() < 0xFFFF_FFFF * (MESSAGE_SIZE as int),
    ensures
        small ==> (r matches Ok(c) ==> c@.len() > input@.len()),
        small ==> (r matches Ok(c) ==> exists|i: int|
            0 <= i < keys@.len() && ((#[trigger] record_rsa(&keys@[i])) matches Some(rc)
                && c@.len() == stripped_len(rc.1))),
        small && (forall|j: int| 0 <= j < keys@.len() ==> !record_wrappable(
            &keys@[j],
            input@.len(),
        )) ==> (r matches Err(e) && e is NoUsableRecipientKey),
        keys@.len() == 0 ==> (r matches Err(e) && (e is NoUsableRecipientKey
            || e is CryptoFailure)),
        !small && (forall|j: int| 0 <= j < keys@.len() ==> !record_wrappable(
            &keys@[j],
            session_record_len(),
        )) ==> (r matches Err(e) && (e is NoUsableRecipientKey || e is CryptoFailure)),
        !small ==> (r matches Ok(c) ==> exists|
            envs: Seq<Seq<u8>>,
            kk: Seq<u8>,
            ki: Seq<u8>,
            m: Seq<int>,
        |
            #[trigger] encrypted_shape(c@, input@, envs, kk, ki) && #[trigger] envelope_map(
                m,
                envs,
                keys@,
            ) && envs.len() <= keys@.len()),
{
    if small {
        return run_encrypt_no_header(keys, input);
    }
    let (key, framed) = match prepare_encrypt(keys) {
        Ok(p) => p,
        Err(e) => {
            return Err(e);
        },
    };
    proof {
        assert(exists|envs: Seq<Seq<u8>>, m: Seq<int>|
            #[trigger] prepared_frame(framed@, envs) && #[trigger] envelope_map(m, envs, keys@)
                && envs.len() <= keys@.len());
    }
    let ghost (envs, emap) = choose|envs: Seq<Seq<u8>>, m: Seq<int>|
        #[trigger] prepared_frame(framed@, envs) && #[trigger] envelope_map(m, envs, keys@)
            && envs.len() <= keys@.len();
    let stream = match encrypt_stream(&key, input, MESSAGE_SIZE) {
        Ok(s) => s,
        Err(e) => {
            return Err(e);
        },
    };
    let ghost fv = framed@;
    let mut out = framed;
    out.extend_from_slice(stream.as_slice());
    proof {
        assert(out@ == fv + stream@);
        assert(prepared_frame(fv, envs));
        assert(encrypted_shape(out@, input@, envs, key.key@, key.iv@));
    }
    let ghost outv = out@;
    let r: Result<Vec<u8>, Error> = Ok(out);
    proof {
        assert(r matches Ok(c) ==> c@ == outv);
        assert(r matches Ok(c) ==> exists|
            envs2: Seq<Seq<u8>>,
            kk2: Seq<u8>,
            ki2: Seq<u8>,
            m2: Seq<int>,
        |
            #[trigger] encrypted_shape(c@, input@, envs2, kk2, ki2) && #[trigger] envelope_map(
                m2,
                envs2,
                keys@,
            ) && envs2.len() <= keys@.len());
    }
    r
}

/// The inputs on which a decrypt run owes a plaintext `p`: the input
/// carries a well-formed frame; the key blob decodes to usable RSA
/// components; some envelope unwraps — the first such — to an encoded
/// session record holding a well-formed session key; the chunk size and
/// the stream length lie within the wire and counter bounds; and what
/// follows the frame is exactly the sealed stream of `p` under that
/// session key.
pub open spec fn run_decrypt_accepts(
    kb: Seq<u8>,
    pass: Option<Seq<u8>>,
    input: Seq<u8>,
    p: Seq<u8>,
) -> bool {
    match frame_decode_spec(input) {
        Some(fr) => {
            let cs = fr.0.0;
            let envs = fr.0.1;
            let n = fr.1;
            match key_components_of(kb, pass) {
                Some(c) => components_fit(c) && (match unwrap_search(c, envs) {
                    Some(sk) => (match encryption_decode_spec(sk) {
                        Some(Some(s)) => s.0.len() == 8 && s.1.len() == 64 && cs >= 1 && cs as int
                            + 16 <= usize::MAX as int && input.skip(n as int).len() < 0xFFFF_FFFF
                            * (cs as int + 16) && input.skip(n as int) == seal_stream_spec(
                            s.1,
                            s.0,
                            0,
                            cs as nat,
                            p,
                        ),
                        _ => false,
                    }),
                    None => false,
                }),
                None => false,
            }
        },
        None => false,
    }
}

/// The inputs whose recovered session record holds no key at all: the
/// frame parses, the key decodes, an envelope unwraps, but the record is
/// empty.
pub open spec fn run_decrypt_no_session(kb: Seq<u8>, pass: Option<Seq<u8>>, input: Seq<u8>) -> bool {
    match frame_decode_spec(input) {
        Some(fr) => {
            match key_components_of(kb, pass) {
                Some(c) => components_fit(c) && (match unwrap_search(c, fr.0.1) {
                    Some(sk) => encryption_decode_spec(sk) == Some(
                        None::<(Seq<u8>, Seq<u8>)>,
                    ),
                    None => false,
                }),
                None => false,
            }
        },
        None => false,
    }
}

/// Recovers the session key and the chunk size from a parsed header with
/// the holder's key blob: the envelopes are tried in turn, the first
/// decryptable one's record is decoded, and the session key's fixed
/// component lengths and the header's chunk size are checked — so a caller
/// can open the stream chunk by chunk without holding it in memory.
///
/// When the key blob decodes, the outcome is exact: the recovered session
/// key is the one the first decryptable envelope carries; an envelope set
/// none of which decrypts, a malformed record, a record holding no key,
/// and out-of-range lengths each fail with their named error.
pub fn recover_session(key: &Vec<u8>, header: &Header, passphrase: Option<&Vec<u8>>) -> (r: Result<
    (Aes256Siv, usize),
    Error,
>)
    ensures
        refused_encrypted(key@, opt_bytes(passphrase)) ==> (r matches Err(e) && e is KeyEncrypted),
        r matches Ok(p) ==> p.0.wf() && p.1 == header.chunk_size && 1 <= p.1 && p.1 <= usize::MAX
            - 16 && (match key_components_of(key@, opt_bytes(passphrase)) {
            Some(c) => (match unwrap_search(c, header.encrypted_keys.deep_view()) {
                Some(sk) => encryption_decode_spec(sk) == Some(Some((p.0.iv@, p.0.key@))),
                None => false,
            }),
            None => false,
        }),
        (match key_components_of(key@, opt_bytes(passphrase)) {
            Some(c) => components_fit(c) ==> (match unwrap_search(
                c,
                header.encrypted_keys.deep_view(),
            ) {
                Some(sk) => (match encryption_decode_spec(sk) {
                    Some(Some(s)) => (s.0.len() == 8 && s.1.len() == 64 && header.chunk_size >= 1
                        && header.chunk_size as int + 16 <= usize::MAX as int) ==> ((
                    r matches Ok(p) && p.0.iv@ == s.0 && p.0.key@ == s.1 && p.1
                        == header.chunk_size) || (r matches Err(e) && e is CryptoFailure)),
                    Some(None) => r matches Err(e) && (e is NoUsableKey || e is CryptoFailure),
                    None => r matches Err(e) && (e is DecodeFailure || e is CryptoFailure),
                }),
                None => true,
            }),
            None => true,
        }),
        pem_exact(key@) ==> (match key_components_of(key@, opt_bytes(passphrase)) {
            Some(c) => (match unwrap_search(c, header.encrypted_keys.deep_view()) {
                Some(sk) => (match encryption_decode_spec(sk) {
                    Some(Some(s)) => (s.0.len() == 8 && s.1.len() == 64 && header.chunk_size >= 1
                        && header.chunk_size as int + 16 <= usize::MAX as int) ==> (
                    r matches Ok(p) && p.0.iv@ == s.0 && p.0.key@ == s.1 && p.1
                        == header.chunk_size),
                    Some(None) => r matches Err(e) && e is NoUsableKey,
                    None => r matches Err(e) && e is DecodeFailure,
                }),
                None => true,
            }),
            None => r matches Err(e) && (if refused_encrypted(key@, opt_bytes(passphrase)) {
                e is KeyEncrypted
            } else {
                e is DecodeFailure
            }),
        }),
{
    let session = match decrypt_key(key, &header.encrypted_keys, passphrase) {
        Ok(s) => s,
        Err(e) => {
            return Err(e);
        },
    };
    let encryption = match Encryption::decode(&session) {
        Ok(e) => e,
        Err(e) => {
            return Err(e);
        },
    };
    match encryption.key {
        Some(Key::Aes256Siv(k)) => {
            if !(k.iv.len() == 8 && k.key.len() == 64) {
                return Err(Error::DecodeFailure);
            }
            if header.chunk_size == 0 {
                return Err(Error::DecodeFailure);
            }
            let chunk = header.chunk_size as usize;
            if chunk > usize::MAX - 16 {
                return Err(Error::DecodeFailure);
            }
            Ok((k, chunk))
        },
        None => Err(Error::NoUsableKey),
    }
}

/// Decrypts a framed, stream-sealed input with the holder's private key:
/// the header is parsed, the session key is recovered by trying every
/// envelope, and the chunked stream is opened under it. In small mode the
/// whole input is instead a single envelope of the payload itself.
///
/// Whatever is returned was authentic: the input carried a well-formed
/// header, and its stream is exactly the seal of the returned plaintext
/// under the recovered session key.
pub fn run_decrypt(key: &Vec<u8>, input: &Vec<u8>, passphrase: Option<&Vec<u8>>, small: bool) -> (r:
    Result<Vec<u8>, Error>)
    requires
        small ==> input@.len() <= 0x7FFF_FFFF,
    ensures
        !small ==> (r matches Ok(p) ==> exists|
            cs: u32,
            envs: Seq<Seq<u8>>,
            n: nat,
            kk: Seq<u8>,
            ki: Seq<u8>,
        |
            #[trigger] decrypted_shape(input@, p@, cs, envs, n, kk, ki)),
        !small && frame_decode_spec(input@) is None ==> (r matches Err(e)
            && e is DecodeFailure),
        !small ==> forall|p: Seq<u8>|
            #[trigger] run_decrypt_accepts(key@, opt_bytes(passphrase), input@, p) ==> ((
            r matches Ok(q) && q@ == p) || (r matches Err(e) && e is CryptoFailure)),
        !small && run_decrypt_no_session(key@, opt_bytes(passphrase), input@) ==> (
        r matches Err(e) && (e is NoUsableKey || e is CryptoFailure)),
        !small && pem_exact(key@) ==> forall|p: Seq<u8>|
            #[trigger] run_decrypt_accepts(key@, opt_bytes(passphrase), input@, p) ==> (
            r matches Ok(q) && q@ == p),
        (!small && pem_exact(key@) && run_decrypt_no_session(key@, opt_bytes(passphrase), input@))
            ==> (r matches Err(e) && e is NoUsableKey),
{
    if small {
        return decrypt_data(key, input, passphrase);
    }
    let (header, consumed) = match Header::decode_length_delimited(input) {
        Ok(p) => p,
        Err(e) => {
            return Err(e);
        },
    };
    let rest = crate::header::subvec(input, consumed, input.len());
    match recover_session(key, &header, passphrase) {
        Ok((k, chunk)) => {
            if rest.len() / (chunk + 16) >= 0xFFFF_FFFF {
                proof {
                    assert forall|p: Seq<u8>|
                        !run_decrypt_accepts(key@, opt_bytes(passphrase), input@, p) by {
                        if run_decrypt_accepts(key@, opt_bytes(passphrase), input@, p) {
                            assert(rest@.len() < 0xFFFF_FFFF * (chunk as int + 16));
                            assert(rest@.len() as int / (chunk as int + 16) < 0xFFFF_FFFF)
                                by (nonlinear_arith)
                                requires
                                    rest@.len() < 0xFFFF_FFFF * (chunk as int + 16),
                                    chunk as int + 16 >= 1,
                            ;
                            assert(false);
                        }
                    }
                }
                return Err(Error::DecodeFailure);
            }
            proof {
                assert(rest@.len() < 0xFFFF_FFFF * (chunk as int + 16)) by (nonlinear_arith)
                    requires
                        rest@.len() as int / (chunk as int + 16) < 0xFFFF_FFFF,
                        chunk as int + 16 >= 1,
                ;
            }
            match decrypt_stream(&k, &rest, chunk) {
                Ok(p) => {
                    proof {
                        assert(rest@ =~= input@.skip(consumed as int));
                        assert(decrypted_shape(
                            input@,
                            p@,
                            header.chunk_size,
                            header.encrypted_keys.deep_view(),
                            consumed as nat,
                            k.key@,
                            k.iv@,
                        ));
                    }
                    Ok(p)
                },
                Err(e) => Err(e),
            }
        },
        Err(e) => {
            proof {
                assert(rest@ =~= input@.skip(consumed as int));
            }
            Err(e)
        },
    }
}

} // verus!
